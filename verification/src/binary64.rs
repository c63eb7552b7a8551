//! Exact degrees from and to IEEE 754 binary64 numbers.
//!
//! Maps and pages speak in doubles. A double comes in by its bit pattern and
//! is taken apart with integer arithmetic, so that the degrees hold what the
//! double held and not an approximation of it. On the way out an exact value
//! goes to the double that lies nearest, a tie going to the even significand.

use vstd::prelude::*;
use vstd::arithmetic::div_mod::lemma_fundamental_div_mod;
use vstd::arithmetic::div_mod::lemma_fundamental_div_mod_converse;
use vstd::arithmetic::power2::lemma2_to64;
use vstd::arithmetic::power2::lemma2_to64_rest;
use vstd::arithmetic::power2::lemma_pow2_adds;
use vstd::arithmetic::power2::lemma_pow2_pos;
use vstd::arithmetic::power2::lemma_pow2_strictly_increases;
use vstd::arithmetic::power2::lemma_pow2_unfold;
use vstd::arithmetic::power2::pow2;
use crate::degrees::Degrees;
use crate::degrees::DegreesView;
use crate::degrees::MAX_DENOMINATOR;

verus! {

/// The sign bit of an IEEE 754 binary64 bit pattern.
pub open spec fn binary64_sign(bits: u64) -> bool {
    bits >= 0x8000_0000_0000_0000
}

/// The biased exponent field of a binary64 bit pattern, 11 bits.
pub open spec fn binary64_exponent(bits: u64) -> nat {
    ((bits / 0x10_0000_0000_0000) % 0x800) as nat
}

/// The fraction field of a binary64 bit pattern, 52 bits.
pub open spec fn binary64_fraction(bits: u64) -> nat {
    (bits % 0x10_0000_0000_0000) as nat
}

/// The integer significand: the fraction, with the hidden bit for a normal number.
pub open spec fn binary64_significand(bits: u64) -> nat {
    if binary64_exponent(bits) == 0 {
        binary64_fraction(bits)
    } else {
        0x10_0000_0000_0000 + binary64_fraction(bits)
    }
}

/// The power of two that scales the significand, as a count of fractional
/// bits: the number is `significand / 2^scale` where `scale` is positive and
/// `significand * 2^(-scale)` where it is not.
pub open spec fn binary64_scale(bits: u64) -> int {
    if binary64_exponent(bits) == 0 {
        1074
    } else {
        1075 - binary64_exponent(bits)
    }
}

/// The exact value of a binary64 bit pattern as degrees.
///
/// `None` for a NaN, an infinity, and a magnitude of 2^128 or more. A
/// magnitude with bits below 2^-108 loses them: it is rounded away from
/// zero to a multiple of 2^-108, so that what is not zero stays on its side
/// of zero. Every other finite number is held exactly.
pub open spec fn binary64_degrees(bits: u64) -> Option<DegreesView> {
    let significand = binary64_significand(bits);
    let scale = binary64_scale(bits);
    if binary64_exponent(bits) == 0x7ff || scale < -75 {
        None
    } else if scale <= 0 {
        Some(
            DegreesView {
                negative: binary64_sign(bits),
                numerator: significand * pow2((-scale) as nat),
                denominator: 1,
            },
        )
    } else if scale <= 108 {
        Some(
            DegreesView {
                negative: binary64_sign(bits),
                numerator: significand,
                denominator: pow2(scale as nat),
            },
        )
    } else {
        Some(
            DegreesView {
                negative: binary64_sign(bits),
                numerator: ((significand + pow2((scale - 108) as nat) - 1) / (pow2(
                    (scale - 108) as nat,
                ) as int)) as nat,
                denominator: pow2(108),
            },
        )
    }
}

/// `2^exponent`, for an exponent that keeps it in 128 bits.
fn power_of_two(exponent: u32) -> (r: u128)
    requires
        exponent <= 127,
    ensures
        r == pow2(exponent as nat),
        0 < r,
{
    let mut r: u128 = 1;
    let mut done: u32 = 0;
    proof {
        lemma2_to64();
    }
    while done < exponent
        invariant
            done <= exponent <= 127,
            r == pow2(done as nat),
            0 < r,
        decreases exponent - done,
    {
        proof {
            lemma_pow2_unfold((done + 1) as nat);
            lemma_pow2_strictly_increases((done + 1) as nat, 128);
            lemma2_to64_rest();
            lemma_pow2_adds(64, 64);
        }
        r = r * 2;
        done = done + 1;
    }
    r
}

/// The powers of two that bound a binary64 significand and a [`Degrees`] value.
proof fn lemma_pow2_landmarks()
    ensures
        pow2(53) == 0x20_0000_0000_0000,
        pow2(75) == 0x800_0000_0000_0000_0000,
        pow2(108) == MAX_DENOMINATOR,
{
    lemma2_to64();
    lemma2_to64_rest();
    lemma_pow2_adds(64, 11);
    lemma_pow2_adds(64, 44);
}

impl Degrees {
    /// The degrees that an IEEE 754 binary64 number denotes, from its bit
    /// pattern (what `f64::to_bits` gives).
    ///
    /// `None` for a NaN, an infinity, and a magnitude of 2^128 or more. The
    /// value is exact, but for what lies below 2^-108 of a degree, which is
    /// rounded away from zero.
    pub fn from_binary64(bits: u64) -> (r: Option<Degrees>)
        ensures
            match r {
                Some(d) => binary64_degrees(bits) == Some(d@),
                None => binary64_degrees(bits) is None,
            },
    {
        let negative = bits >= 0x8000_0000_0000_0000;
        let exponent = (bits / 0x10_0000_0000_0000) % 0x800;
        let fraction = bits % 0x10_0000_0000_0000;
        if exponent == 0x7ff {
            return None;
        }
        let significand: u128 = if exponent == 0 {
            fraction as u128
        } else {
            0x10_0000_0000_0000 + fraction as u128
        };
        proof {
            lemma_pow2_landmarks();
        }
        if exponent >= 1075 {
            let up = exponent - 1075;
            if up > 75 {
                return None;
            }
            let factor = power_of_two(up as u32);
            proof {
                if up < 75 {
                    lemma_pow2_strictly_increases(up as nat, 75);
                }
                assert(significand * factor <= 0x1f_ffff_ffff_ffff * 0x800_0000_0000_0000_0000)
                    by (nonlinear_arith)
                    requires
                        significand <= 0x1f_ffff_ffff_ffff,
                        factor <= 0x800_0000_0000_0000_0000,
                ;
            }
            Degrees::new(negative, significand * factor, 1)
        } else {
            let scale = if exponent == 0 {
                1074
            } else {
                1075 - exponent
            };
            if scale <= 108 {
                let denominator = power_of_two(scale as u32);
                proof {
                    if scale < 108 {
                        lemma_pow2_strictly_increases(scale as nat, 108);
                    }
                }
                Degrees::new(negative, significand, denominator)
            } else {
                let cut = scale - 108;
                let numerator = if cut >= 53 {
                    proof {
                        if cut > 53 {
                            lemma_pow2_strictly_increases(53, cut as nat);
                        }
                        let divisor = pow2(cut as nat) as int;
                        let s = significand as int;
                        assert((s + divisor - 1) / divisor == (if s == 0 {
                            0int
                        } else {
                            1int
                        })) by (nonlinear_arith)
                            requires
                                0 <= s < divisor,
                        ;
                    }
                    if significand == 0 {
                        0
                    } else {
                        1
                    }
                } else {
                    let divisor = power_of_two(cut as u32);
                    proof {
                        if cut < 53 {
                            lemma_pow2_strictly_increases(cut as nat, 53);
                        }
                    }
                    (significand + divisor - 1) / divisor
                };
                Degrees::new(negative, numerator, MAX_DENOMINATOR)
            }
        }
    }
}

/// The whole part of the base-2 logarithm of a whole number above zero.
pub open spec fn whole_log2(n: nat) -> nat
    decreases n,
{
    if n < 2 {
        0
    } else {
        1 + whole_log2(n / 2)
    }
}

/// How often `numerator` must be doubled to reach `denominator`.
pub open spec fn doublings_to_reach(numerator: nat, denominator: nat) -> nat
    decreases denominator - numerator,
{
    if numerator == 0 || numerator >= denominator {
        0
    } else if 2 * numerator >= denominator {
        1
    } else {
        1 + doublings_to_reach(2 * numerator, denominator)
    }
}

/// The binade of a magnitude above zero: the `e` with `2^e <= magnitude < 2^(e+1)`.
pub open spec fn binade(v: DegreesView) -> int {
    if v.numerator >= v.denominator {
        whole_log2(v.numerator / v.denominator) as int
    } else {
        -(doublings_to_reach(v.numerator, v.denominator) as int)
    }
}

/// The numerator of a magnitude, scaled so that the quotient of
/// [`scaled_numerator`] by [`scaled_denominator`] lies in `[2^52, 2^53)`.
pub open spec fn scaled_numerator(v: DegreesView) -> nat {
    if binade(v) < 52 {
        v.numerator * pow2((52 - binade(v)) as nat)
    } else {
        v.numerator
    }
}

/// The denominator that goes with [`scaled_numerator`].
pub open spec fn scaled_denominator(v: DegreesView) -> nat {
    if binade(v) > 52 {
        v.denominator * pow2((binade(v) - 52) as nat)
    } else {
        v.denominator
    }
}

/// The 53-bit significand of a magnitude above zero, rounded to nearest with
/// a tie going to the even one. It may come out as `2^53`, which stands for
/// `2^52` in the next binade.
pub open spec fn rounded_significand(v: DegreesView) -> nat {
    let quotient = scaled_numerator(v) / scaled_denominator(v);
    let rest = scaled_numerator(v) % scaled_denominator(v);
    if 2 * rest > scaled_denominator(v) || (2 * rest == scaled_denominator(v) && quotient % 2
        == 1) {
        quotient + 1
    } else {
        quotient
    }
}

/// The bit pattern of the binary64 number nearest to a value: the sign bit,
/// then the binade with the bias of 1023, then the significand without its
/// leading bit. A zero keeps its sign flag.
pub open spec fn nearest_binary64(v: DegreesView) -> int {
    let sign: int = if v.negative {
        0x8000_0000_0000_0000
    } else {
        0
    };
    if v.numerator == 0 {
        sign
    } else {
        sign + (binade(v) + 1023) * 0x10_0000_0000_0000 + (rounded_significand(v)
            - 0x10_0000_0000_0000)
    }
}

/// A whole number between `2^e` and `2^(e+1)` has `e` as the whole part of
/// its logarithm.
proof fn lemma_whole_log2_is(n: nat, e: nat)
    requires
        pow2(e) <= n < pow2(e + 1),
    ensures
        whole_log2(n) == e,
    decreases e,
{
    lemma2_to64();
    if e == 0 {
        assert(n < 2);
    } else {
        lemma_pow2_unfold(e);
        lemma_pow2_unfold(e + 1);
        lemma_pow2_pos((e - 1) as nat);
        assert(n >= 2);
        lemma_whole_log2_is(n / 2, (e - 1) as nat);
    }
}

/// A number that `k` doublings take into `[denominator, 2 * denominator)`
/// needs `k` doublings to reach the denominator.
proof fn lemma_doublings_to_reach_is(numerator: nat, denominator: nat, k: nat)
    requires
        0 < numerator,
        denominator <= numerator * pow2(k) < 2 * denominator,
    ensures
        doublings_to_reach(numerator, denominator) == k,
    decreases k,
{
    lemma2_to64();
    if k > 0 {
        lemma_pow2_unfold(k);
        let half = pow2((k - 1) as nat);
        lemma_pow2_pos((k - 1) as nat);
        assert(numerator * (2 * half) == (2 * numerator) * half) by (nonlinear_arith);
        assert(numerator < denominator) by (nonlinear_arith)
            requires
                numerator * (2 * half) < 2 * denominator,
                half >= 1,
                numerator > 0,
        ;
        if k > 1 {
            lemma_pow2_unfold((k - 1) as nat);
            assert(2 * numerator < denominator) by (nonlinear_arith)
                requires
                    (2 * numerator) * half < 2 * denominator,
                    half >= 2,
                    numerator > 0,
            ;
            lemma_doublings_to_reach_is(2 * numerator, denominator, (k - 1) as nat);
        } else {
            let p = pow2(k);
            assert(numerator * p == 2 * numerator) by (nonlinear_arith)
                requires
                    p == 2,
            ;
        }
    } else {
        let p = pow2(k);
        assert(numerator * p == numerator) by (nonlinear_arith)
            requires
                p == 1,
        ;
    }
}

/// Whether a magnitude lies in the binade `e`, said without division.
pub open spec fn lies_in_binade(v: DegreesView, e: int) -> bool {
    if e >= 0 {
        pow2(e as nat) * v.denominator <= v.numerator < pow2((e + 1) as nat) * v.denominator
    } else {
        v.denominator <= v.numerator * pow2((-e) as nat) < 2 * v.denominator
    }
}

/// The binade of a magnitude is the one it lies in.
proof fn lemma_binade_is(v: DegreesView, e: int)
    requires
        v.wf(),
        0 < v.numerator,
        lies_in_binade(v, e),
    ensures
        binade(v) == e,
{
    let n = v.numerator as int;
    let d = v.denominator as int;
    if e >= 0 {
        let low = pow2(e as nat) as int;
        let high = pow2((e + 1) as nat) as int;
        lemma_pow2_pos(e as nat);
        lemma_fundamental_div_mod(n, d);
        let i = n / d;
        let r = n % d;
        assert(low <= i < high) by (nonlinear_arith)
            requires
                low * d <= n < high * d,
                n == d * i + r,
                0 <= r < d,
        ;
        assert(n >= d) by (nonlinear_arith)
            requires
                low * d <= n,
                low >= 1,
                d > 0,
        ;
        lemma_whole_log2_is(i as nat, e as nat);
    } else {
        let k = (-e) as nat;
        lemma_pow2_pos(k);
        lemma_pow2_unfold(k);
        assert(n < d) by (nonlinear_arith)
            requires
                n * pow2(k) < 2 * d,
                pow2(k) >= 2,
                n > 0,
        ;
        lemma_doublings_to_reach_is(v.numerator, v.denominator, k);
    }
}

/// Two powers of two beyond the sixty-fourth.
proof fn lemma_pow2_76_and_160()
    ensures
        pow2(76) == 0x1000_0000_0000_0000_0000,
        pow2(160) == 0x1_0000_0000_0000_0000_0000_0000_0000_0000_0000_0000,
{
    lemma2_to64();
    lemma2_to64_rest();
    lemma_pow2_adds(64, 12);
    lemma_pow2_adds(64, 64);
    lemma_pow2_adds(128, 32);
    let a = pow2(64) as int;
    let b = pow2(12) as int;
    let c = pow2(32) as int;
    assert(a * b == 0x1000_0000_0000_0000_0000) by (nonlinear_arith)
        requires
            a == 0x1_0000_0000_0000_0000,
            b == 0x1000,
    ;
    assert(a * a == 0x1_0000_0000_0000_0000_0000_0000_0000_0000) by (nonlinear_arith)
        requires
            a == 0x1_0000_0000_0000_0000,
    ;
    let d = pow2(128) as int;
    assert(d * c == 0x1_0000_0000_0000_0000_0000_0000_0000_0000_0000_0000) by (nonlinear_arith)
        requires
            d == 0x1_0000_0000_0000_0000_0000_0000_0000_0000,
            c == 0x1_0000_0000,
    ;
}

/// A quotient in `[2^52, 2^53)` of the numerator, doubled `k` times, by the
/// denominator puts the magnitude in the binade `52 - k`.
proof fn lemma_grown_quotient_fixes_binade(v: DegreesView, k: nat, quotient: int, rest: int)
    requires
        v.wf(),
        0 < v.numerator,
        quotient * v.denominator + rest == v.numerator * pow2(k),
        0 <= rest < v.denominator,
        0x10_0000_0000_0000 <= quotient < 0x20_0000_0000_0000,
    ensures
        binade(v) == 52 - k,
{
    lemma2_to64();
    lemma2_to64_rest();
    let n = v.numerator as int;
    let d = v.denominator as int;
    let grown = n * pow2(k);
    let p52 = pow2(52) as int;
    assert(p52 * d <= grown < 2 * p52 * d) by (nonlinear_arith)
        requires
            quotient * d + rest == grown,
            0 <= rest < d,
            p52 <= quotient < 2 * p52,
    ;
    if k <= 52 {
        let e = (52 - k) as nat;
        lemma_pow2_adds(e, k);
        lemma_pow2_unfold(e + 1);
        lemma_pow2_pos(k);
        let pe = pow2(e) as int;
        let pk = pow2(k) as int;
        assert(pe * d <= n < 2 * pe * d) by (nonlinear_arith)
            requires
                (pe * pk) * d <= n * pk < 2 * (pe * pk) * d,
                pk > 0,
        ;
        assert(pow2(e + 1) * v.denominator == 2 * pe * d) by (nonlinear_arith)
            requires
                pow2(e + 1) == 2 * pe,
                v.denominator == d,
        ;
    } else {
        let j = (k - 52) as nat;
        lemma_pow2_adds(j, 52);
        let pj = pow2(j) as int;
        assert(d <= n * pj < 2 * d) by (nonlinear_arith)
            requires
                p52 * d <= n * (pj * p52) < 2 * p52 * d,
                p52 > 0,
        ;
    }
    lemma_binade_is(v, 52 - k);
}

/// A whole part that is `quotient * 2^s` and a bit, with the quotient in
/// `[2^52, 2^53)`, puts the magnitude in the binade `52 + s`.
proof fn lemma_shrunk_quotient_fixes_binade(v: DegreesView, s: nat, quotient: int, low: int)
    requires
        v.wf(),
        (v.numerator / v.denominator) as int == quotient * pow2(s) + low,
        0 <= low < pow2(s),
        0x10_0000_0000_0000 <= quotient < 0x20_0000_0000_0000,
    ensures
        0 < v.numerator,
        binade(v) == 52 + s,
        v.numerator == quotient * (v.denominator * pow2(s)) + (low * v.denominator + v.numerator
            % v.denominator),
        0 <= low * v.denominator + v.numerator % v.denominator < v.denominator * pow2(s),
{
    lemma2_to64();
    lemma2_to64_rest();
    let n = v.numerator as int;
    let d = v.denominator as int;
    let whole = n / d;
    let rest = n % d;
    let unit = pow2(s) as int;
    let p52 = pow2(52) as int;
    lemma_fundamental_div_mod(n, d);
    lemma_pow2_adds(52, s);
    lemma_pow2_unfold(52 + s + 1);
    lemma_pow2_pos(s);
    assert(n == quotient * (d * unit) + (low * d + rest)) by (nonlinear_arith)
        requires
            n == d * whole + rest,
            whole == quotient * unit + low,
    ;
    assert(0 <= low * d + rest < d * unit) by (nonlinear_arith)
        requires
            0 <= low < unit,
            0 <= rest < d,
    ;
    assert((p52 * unit) * d <= n < 2 * (p52 * unit) * d) by (nonlinear_arith)
        requires
            n == quotient * (d * unit) + (low * d + rest),
            0 <= low * d + rest < d * unit,
            p52 <= quotient < 2 * p52,
            unit > 0,
            d > 0,
    ;
    assert(pow2(52 + s + 1) * v.denominator == 2 * (p52 * unit) * d) by (nonlinear_arith)
        requires
            pow2(52 + s + 1) == 2 * (p52 * unit),
            v.denominator == d,
    ;
    assert(n > 0) by (nonlinear_arith)
        requires
            (p52 * unit) * d <= n,
            p52 > 0,
            unit > 0,
            d > 0,
    ;
    lemma_binade_is(v, 52 + s as int);
}

impl Degrees {
    /// The IEEE 754 binary64 number nearest to the value, as its bit pattern
    /// (what `f64::from_bits` takes). A tie goes to the even significand.
    ///
    /// Every value has one: the magnitudes of this type lie between 2^-108
    /// and 2^128, well inside the range of normal doubles.
    pub fn to_binary64(&self) -> (bits: u64)
        ensures
            bits == nearest_binary64(self@),
    {
        let sign: u64 = if self.negative() {
            0x8000_0000_0000_0000
        } else {
            0
        };
        let numerator = self.numerator();
        let denominator = self.denominator();
        if numerator == 0 {
            return sign;
        }
        proof {
            lemma2_to64();
            lemma2_to64_rest();
            lemma_pow2_adds(64, 44);
            lemma_pow2_adds(64, 64);
        }
        let whole = numerator / denominator;
        let rest = numerator % denominator;
        let significand: u128;
        let exponent: u64;
        if whole < 0x10_0000_0000_0000 {
            let mut quotient = whole;
            let mut left = rest;
            let mut doublings: u64 = 0;
            proof {
                lemma_fundamental_div_mod(numerator as int, denominator as int);
                assert(quotient * denominator == denominator * quotient) by (nonlinear_arith);
                assert(numerator * pow2(0) == numerator) by (nonlinear_arith)
                    requires
                        pow2(0) == 1,
                ;
            }
            while quotient < 0x10_0000_0000_0000
                invariant
                    0 < numerator,
                    0 < denominator <= 0x1000_0000_0000_0000_0000_0000_0000,
                    quotient * denominator + left == numerator * pow2(doublings as nat),
                    left < denominator,
                    quotient < 0x20_0000_0000_0000,
                    doublings <= 160,
                    doublings == 0 ==> quotient == whole,
                    doublings > 0 || whole < 0x10_0000_0000_0000,
                decreases 161 - doublings,
            {
                proof {
                    let k = doublings as nat;
                    lemma_pow2_pos(k);
                    lemma_pow2_unfold(k + 1);
                    if k >= 160 {
                        lemma_pow2_76_and_160();
                        let p = pow2(k) as int;
                        let q = quotient as int;
                        let d = denominator as int;
                        let n = numerator as int;
                        assert(q * d + left < 0x10_0000_0000_0000 * d) by (nonlinear_arith)
                            requires
                                0 <= q < 0x10_0000_0000_0000,
                                0 <= left < d,
                        ;
                        assert(n * p >= p) by (nonlinear_arith)
                            requires
                                n >= 1,
                                p >= 0,
                        ;
                        assert(false);
                    }
                    let p = pow2(k) as int;
                    assert((2 * quotient) * denominator + 2 * left == numerator * (2 * p))
                        by (nonlinear_arith)
                        requires
                            quotient * denominator + left == numerator * p,
                    ;
                    assert((2 * quotient + 1) * denominator + (2 * left - denominator) == numerator
                        * (2 * p)) by (nonlinear_arith)
                        requires
                            quotient * denominator + left == numerator * p,
                    ;
                }
                left = 2 * left;
                if left >= denominator {
                    quotient = 2 * quotient + 1;
                    left = left - denominator;
                } else {
                    quotient = 2 * quotient;
                }
                doublings = doublings + 1;
            }
            proof {
                lemma_grown_quotient_fixes_binade(
                    self@,
                    doublings as nat,
                    quotient as int,
                    left as int,
                );
                let grown = numerator * pow2(doublings as nat);
                lemma_fundamental_div_mod_converse(
                    grown as int,
                    denominator as int,
                    quotient as int,
                    left as int,
                );
                assert(scaled_numerator(self@) == grown);
                assert(scaled_denominator(self@) == denominator);
            }
            let up = 2 * left > denominator || (2 * left == denominator && quotient % 2 == 1);
            significand = if up {
                quotient + 1
            } else {
                quotient
            };
            exponent = 1075 - doublings;
        } else {
            let mut quotient = whole;
            let mut low: u128 = 0;
            let mut unit: u128 = 1;
            let mut halvings: u64 = 0;
            proof {
                assert(quotient * unit + low == whole) by (nonlinear_arith)
                    requires
                        unit == 1,
                        low == 0,
                        quotient == whole,
                ;
            }
            while quotient >= 0x20_0000_0000_0000
                invariant
                    whole == quotient * unit + low,
                    low < unit,
                    unit == pow2(halvings as nat),
                    halvings <= 76,
                    0x10_0000_0000_0000 <= quotient,
                decreases quotient,
            {
                proof {
                    let s = halvings as nat;
                    lemma_pow2_unfold(s + 1);
                    lemma_pow2_76_and_160();
                    if s >= 76 {
                        assert(quotient * unit >= 0x20_0000_0000_0000 * unit) by (nonlinear_arith)
                            requires
                                quotient >= 0x20_0000_0000_0000,
                                unit >= 0,
                        ;
                        assert(false);
                    }
                    lemma_pow2_strictly_increases(s, 76);
                    let q = quotient as int;
                    let u = unit as int;
                    assert((q / 2) * (2 * u) + (low + (q % 2) * u) == q * u + low)
                        by (nonlinear_arith)
                        requires
                            q == 2 * (q / 2) + q % 2,
                    ;
                    assert(low + (q % 2) * u < 2 * u) by (nonlinear_arith)
                        requires
                            0 <= low < u,
                            0 <= q % 2 <= 1,
                    ;
                }
                low = low + (quotient % 2) * unit;
                quotient = quotient / 2;
                unit = unit * 2;
                halvings = halvings + 1;
            }
            proof {
                lemma_shrunk_quotient_fixes_binade(
                    self@,
                    halvings as nat,
                    quotient as int,
                    low as int,
                );
                let divisor = denominator * unit;
                let part = low * denominator + rest;
                assert(scaled_numerator(self@) == numerator);
                assert(scaled_denominator(self@) == divisor) by {
                    if halvings == 0 {
                        assert(denominator * unit == denominator) by (nonlinear_arith)
                            requires
                                unit == 1,
                        ;
                    }
                }
                lemma_fundamental_div_mod_converse(
                    numerator as int,
                    divisor as int,
                    quotient as int,
                    part as int,
                );
            }
            let up = if halvings == 0 {
                2 * rest > denominator || (2 * rest == denominator && quotient % 2 == 1)
            } else {
                let half = unit / 2;
                proof {
                    lemma_pow2_unfold(halvings as nat);
                    let d = denominator as int;
                    let r = rest as int;
                    let l = low as int;
                    let h = half as int;
                    assert(unit == 2 * half);
                    assert(2 * (l * d + r) > d * (2 * h) <==> (l > h || (l == h && r > 0)))
                        by (nonlinear_arith)
                        requires
                            0 <= r < d,
                            0 <= l,
                            0 <= h,
                    ;
                    assert(2 * (l * d + r) == d * (2 * h) <==> (l == h && r == 0))
                        by (nonlinear_arith)
                        requires
                            0 <= r < d,
                            0 <= l,
                            0 <= h,
                    ;
                }
                low > half || (low == half && (rest > 0 || quotient % 2 == 1))
            };
            proof {
                if halvings == 0 {
                    assert(low == 0);
                    assert(low * denominator + rest == rest) by (nonlinear_arith)
                        requires
                            low == 0,
                    ;
                    assert(denominator * unit == denominator) by (nonlinear_arith)
                        requires
                            unit == 1,
                    ;
                }
            }
            significand = if up {
                quotient + 1
            } else {
                quotient
            };
            exponent = 1075 + halvings;
        }
        assert(significand == rounded_significand(self@));
        assert(exponent == binade(self@) + 1023);
        sign + (exponent * 0x10_0000_0000_0000 + (significand as u64 - 0x10_0000_0000_0000))
    }
}

/// Rounding is to nearest: the rounded significand lies within one half of
/// the exact scaled quotient, and it stays between `2^52` and `2^53`.
pub proof fn lemma_rounding_is_to_nearest(v: DegreesView)
    requires
        v.wf(),
        0 < v.numerator,
    ensures
        -(scaled_denominator(v) as int) <= 2 * (rounded_significand(v) * scaled_denominator(v)
            - scaled_numerator(v)) <= scaled_denominator(v),
        0x10_0000_0000_0000 <= rounded_significand(v) <= 0x20_0000_0000_0000,
{
    lemma_scaled_quotient_is_normal(v);
    let n = scaled_numerator(v) as int;
    let d = scaled_denominator(v) as int;
    lemma_fundamental_div_mod(n, d);
    let q = n / d;
    let r = n % d;
    assert((q + 1) * d - n == d - r) by (nonlinear_arith)
        requires
            n == d * q + r,
    ;
    assert(q * d - n == -r) by (nonlinear_arith)
        requires
            n == d * q + r,
    ;
}

/// The scaled quotient of a magnitude above zero lies in `[2^52, 2^53)`.
proof fn lemma_scaled_quotient_is_normal(v: DegreesView)
    requires
        v.wf(),
        0 < v.numerator,
    ensures
        0 < scaled_denominator(v),
        0x10_0000_0000_0000 <= scaled_numerator(v) / scaled_denominator(v) < 0x20_0000_0000_0000,
{
    lemma2_to64();
    lemma2_to64_rest();
    let n = v.numerator as int;
    let d = v.denominator as int;
    let e = binade(v);
    lemma_binade_holds(v);
    let p52 = pow2(52) as int;
    let sn = scaled_numerator(v) as int;
    let sd = scaled_denominator(v) as int;
    if e >= 52 {
        let s = (e - 52) as nat;
        lemma_pow2_adds(52, s);
        lemma_pow2_unfold((e + 1) as nat);
        lemma_pow2_pos(s);
        let unit = pow2(s) as int;
        assert(sd == d * unit) by {
            if s == 0 {
                assert(d * unit == d) by (nonlinear_arith)
                    requires
                        unit == 1,
                ;
            }
        }
        assert(sd > 0) by (nonlinear_arith)
            requires
                sd == d * unit,
                d > 0,
                unit > 0,
        ;
        assert(p52 * sd <= sn < 2 * p52 * sd) by (nonlinear_arith)
            requires
                (p52 * unit) * d <= n < 2 * (p52 * unit) * d,
                sd == d * unit,
                sn == n,
        ;
    } else if e >= 0 {
        let k = (52 - e) as nat;
        lemma_pow2_adds(e as nat, k);
        lemma_pow2_unfold((e + 1) as nat);
        lemma_pow2_pos(k);
        let pe = pow2(e as nat) as int;
        let pk = pow2(k) as int;
        assert(p52 * sd <= sn < 2 * p52 * sd) by (nonlinear_arith)
            requires
                pe * d <= n < 2 * pe * d,
                p52 == pe * pk,
                sn == n * pk,
                sd == d,
                pk > 0,
        ;
    } else {
        let j = (-e) as nat;
        lemma_pow2_adds(j, 52);
        let pj = pow2(j) as int;
        let pk = pow2((52 - e) as nat) as int;
        assert(p52 * sd <= sn < 2 * p52 * sd) by (nonlinear_arith)
            requires
                d <= n * pj < 2 * d,
                pk == pj * p52,
                sn == n * pk,
                sd == d,
                p52 > 0,
        ;
    }
    lemma_fundamental_div_mod(sn, sd);
    let q = sn / sd;
    let r = sn % sd;
    assert(p52 <= q < 2 * p52) by (nonlinear_arith)
        requires
            p52 * sd <= sn < 2 * p52 * sd,
            sn == sd * q + r,
            0 <= r < sd,
    ;
}

/// A magnitude above zero lies in its binade.
proof fn lemma_binade_holds(v: DegreesView)
    requires
        v.wf(),
        0 < v.numerator,
    ensures
        lies_in_binade(v, binade(v)),
{
    let n = v.numerator as int;
    let d = v.denominator as int;
    if v.numerator >= v.denominator {
        lemma_fundamental_div_mod(n, d);
        let i = n / d;
        let r = n % d;
        assert(i >= 1) by (nonlinear_arith)
            requires
                n == d * i + r,
                0 <= r < d,
                n >= d,
        ;
        lemma_whole_log2_holds(i as nat);
        let e = whole_log2(i as nat);
        let low = pow2(e) as int;
        let high = pow2(e + 1) as int;
        assert(low * d <= n < high * d) by (nonlinear_arith)
            requires
                low <= i < high,
                n == d * i + r,
                0 <= r < d,
        ;
    } else {
        lemma_doublings_to_reach_holds(v.numerator, v.denominator);
    }
}

/// A whole number above zero lies between the powers of two that its
/// logarithm names.
proof fn lemma_whole_log2_holds(n: nat)
    requires
        0 < n,
    ensures
        pow2(whole_log2(n)) <= n < pow2(whole_log2(n) + 1),
    decreases n,
{
    lemma2_to64();
    if n >= 2 {
        lemma_whole_log2_holds(n / 2);
        lemma_pow2_unfold(whole_log2(n / 2) + 1);
        lemma_pow2_unfold(whole_log2(n / 2) + 2);
    }
}

/// The doublings that [`doublings_to_reach`] counts take a number below the
/// denominator into `[denominator, 2 * denominator)`.
proof fn lemma_doublings_to_reach_holds(numerator: nat, denominator: nat)
    requires
        0 < numerator < denominator,
    ensures
        doublings_to_reach(numerator, denominator) >= 1,
        denominator <= numerator * pow2(doublings_to_reach(numerator, denominator)) < 2
            * denominator,
    decreases denominator - numerator,
{
    lemma2_to64();
    if 2 * numerator >= denominator {
        let p = pow2(1);
        assert(numerator * p == 2 * numerator) by (nonlinear_arith)
            requires
                p == 2,
        ;
    } else {
        lemma_doublings_to_reach_holds(2 * numerator, denominator);
        let k = doublings_to_reach(2 * numerator, denominator);
        lemma_pow2_unfold(k + 1);
        let p = pow2(k) as int;
        assert(numerator * (2 * p) == (2 * numerator) * p) by (nonlinear_arith);
    }
}

/// A double that [`Degrees::from_binary64`] holds without a cut comes back
/// as it went in: every normal number from 2^-56 up to below 2^128, and
/// either zero.
pub proof fn lemma_exact_double_round_trips(bits: u64)
    requires
        binary64_degrees(bits) is Some,
        binary64_exponent(bits) != 0 ==> binary64_scale(bits) <= 108,
        binary64_exponent(bits) == 0 ==> binary64_fraction(bits) == 0,
    ensures
        nearest_binary64(binary64_degrees(bits).unwrap()) == bits,
{
    lemma2_to64();
    lemma2_to64_rest();
    let v = binary64_degrees(bits).unwrap();
    let field = binary64_exponent(bits) as int;
    let fraction = binary64_fraction(bits) as int;
    let scale = binary64_scale(bits);
    let m = binary64_significand(bits) as int;
    let sign: int = if bits >= 0x8000_0000_0000_0000 {
        0x8000_0000_0000_0000
    } else {
        0
    };
    assert(bits == sign + field * 0x10_0000_0000_0000 + fraction);
    if field == 0 {
        lemma_pow2_pos((scale - 108) as nat);
        let cut = pow2((scale - 108) as nat) as int;
        assert((0 + cut - 1) / cut == 0) by (nonlinear_arith)
            requires
                cut > 0,
        ;
        assert(v.numerator == 0);
    } else {
        let p52 = pow2(52) as int;
        assert(p52 <= m < 2 * p52);
        if scale <= 0 {
            let j = (-scale) as nat;
            let pj = pow2(j) as int;
            lemma_pow2_pos(j);
            lemma_pow2_adds(52, j);
            lemma_pow2_unfold(52 + j + 1);
            assert(v.numerator == m * pj);
            assert(v.denominator == 1);
            assert((p52 * pj) * 1 <= m * pj < 2 * (p52 * pj) * 1) by (nonlinear_arith)
                requires
                    p52 <= m < 2 * p52,
                    pj > 0,
            ;
            assert(v.numerator > 0);
            assert(pow2((52 + j) as nat) * v.denominator <= v.numerator < pow2((52 + j + 1) as nat)
                * v.denominator);
            lemma_binade_is(v, 52 + j as int);
            assert(scaled_numerator(v) == m * pj);
            assert(scaled_denominator(v) == pj) by {
                if j == 0 {
                } else {
                    assert(1 * pj == pj);
                }
            }
            lemma_fundamental_div_mod_converse(m * pj, pj, m, 0);
        } else {
            let k = scale as nat;
            let pk = pow2(k) as int;
            lemma_pow2_pos(k);
            assert(v.numerator == m);
            assert(v.denominator == pk);
            if k <= 52 {
                let e = (52 - k) as nat;
                lemma_pow2_adds(e, k);
                lemma_pow2_unfold(e + 1);
                let pe = pow2(e) as int;
                assert(pe * pk <= m < (2 * pe) * pk) by (nonlinear_arith)
                    requires
                        p52 <= m < 2 * p52,
                        p52 == pe * pk,
                ;
            } else {
                let j = (k - 52) as nat;
                lemma_pow2_adds(j, 52);
                let pj = pow2(j) as int;
                assert(pk <= m * pj < 2 * pk) by (nonlinear_arith)
                    requires
                        p52 <= m < 2 * p52,
                        pk == pj * p52,
                        pj > 0,
                ;
                lemma_pow2_pos(j);
            }
            lemma_binade_is(v, 52 - k);
            assert(scaled_numerator(v) == m * pk);
            assert(scaled_denominator(v) == pk);
            lemma_fundamental_div_mod_converse(m * pk, pk, m, 0);
        }
    }
}

/// Whether a binary64 bit pattern is below zero as a number: the sign bit
/// is set and the number is neither a zero nor a NaN.
pub open spec fn binary64_below_zero(bits: u64) -> bool {
    &&& binary64_sign(bits)
    &&& binary64_exponent(bits) != 0 || binary64_fraction(bits) != 0
    &&& binary64_exponent(bits) != 0x7ff || binary64_fraction(bits) == 0
}

/// The degrees of a double lie on the side of zero on which the double
/// lies, also where its lowest bits were rounded: they are zero only for a
/// zero, and below zero for every double below zero.
pub proof fn lemma_degrees_keep_the_side_of_zero(bits: u64)
    requires
        binary64_degrees(bits) is Some,
    ensures
        binary64_degrees(bits).unwrap().wf(),
        binary64_degrees(bits).unwrap().numerator == 0 <==> binary64_exponent(bits) == 0
            && binary64_fraction(bits) == 0,
        binary64_degrees(bits).unwrap().below_zero() == binary64_below_zero(bits),
{
    lemma2_to64();
    lemma2_to64_rest();
    lemma_pow2_landmarks();
    let v = binary64_degrees(bits).unwrap();
    let m = binary64_significand(bits) as int;
    let scale = binary64_scale(bits);
    if scale <= 0 {
        let p = pow2((-scale) as nat) as int;
        lemma_pow2_pos((-scale) as nat);
        assert(m * p > 0) by (nonlinear_arith)
            requires
                m > 0,
                p > 0,
        ;
    } else if scale <= 108 {
        lemma_pow2_pos(scale as nat);
        if scale < 108 {
            lemma_pow2_strictly_increases(scale as nat, 108);
        }
    } else {
        let p = pow2((scale - 108) as nat) as int;
        lemma_pow2_pos((scale - 108) as nat);
        assert((m + p - 1) / p == 0 <==> m == 0) by (nonlinear_arith)
            requires
                m >= 0,
                p > 0,
        ;
        assert((m + p - 1) / p >= 0) by (nonlinear_arith)
            requires
                m >= 0,
                p > 0,
        ;
    }
}

/// The nearest double lies within one part in 2^53 of the value, on its
/// side of zero: for a value between 2^-56 and 2^51, which is where every
/// coordinate lies, the double is held exactly by
/// [`Degrees::from_binary64`], and what it holds differs from the value by
/// at most the value divided by 2^53.
pub proof fn lemma_nearest_double_is_close(v: DegreesView)
    requires
        v.wf(),
        0 < v.numerator,
        -56 <= binade(v) <= 50,
    ensures
        0 < nearest_binary64(v) <= u64::MAX,
        binary64_degrees(nearest_binary64(v) as u64) is Some,
        binary64_degrees(nearest_binary64(v) as u64).unwrap().wf(),
        binary64_degrees(nearest_binary64(v) as u64).unwrap().negative == v.negative,
        binary64_degrees(nearest_binary64(v) as u64).unwrap().within(
            v,
            v.numerator,
            v.denominator * pow2(53),
        ),
{
    lemma2_to64();
    lemma2_to64_rest();
    lemma_pow2_landmarks();
    lemma_rounding_is_to_nearest(v);
    lemma_scaled_quotient_is_normal(v);
    let n = v.numerator as int;
    let d = v.denominator as int;
    let e = binade(v);
    let k = (52 - e) as nat;
    let p = pow2(k) as int;
    let m = rounded_significand(v) as int;
    let big = scaled_numerator(v) as int;
    lemma_pow2_pos(k);
    lemma_pow2_unfold(k);
    assert(big == n * p);
    assert(scaled_denominator(v) == d);
    lemma_fundamental_div_mod(big, d);
    let p52: int = 0x10_0000_0000_0000;
    assert(big >= p52 * d) by (nonlinear_arith)
        requires
            big == d * (big / d) + big % d,
            big / d >= p52,
            big % d >= 0,
            d > 0,
    ;
    let sign: int = if v.negative {
        0x8000_0000_0000_0000
    } else {
        0
    };
    let field = e + 1023;
    let bits = nearest_binary64(v);
    assert(bits == sign + field * p52 + (m - p52));
    let word = bits as u64;
    assert(word == bits);
    if m < 2 * p52 {
        assert(binary64_exponent(word) == field);
        assert(binary64_fraction(word) == m - p52);
        assert(binary64_significand(word) == m);
        assert(binary64_scale(word) == k);
        if k < 108 {
            lemma_pow2_strictly_increases(k, 108);
        }
        let w = binary64_degrees(word).unwrap();
        assert(w.numerator == m);
        assert(w.denominator == p);
        let gap = m * d - n * p;
        assert(-d <= 2 * gap <= d);
        let tolerance = d * pow2(53);
        let bound = n * (p * d);
        assert(-bound <= gap * tolerance <= bound) by (nonlinear_arith)
            requires
                -d <= 2 * gap <= d,
                tolerance == d * (2 * p52),
                bound == n * (p * d),
                n * p >= p52 * d,
                d > 0,
                p52 > 0,
        ;
        assert((-gap) * tolerance == -(gap * tolerance)) by (nonlinear_arith);
        assert((-m) * d - (-n) * p == -gap) by (nonlinear_arith)
            requires
                gap == m * d - n * p,
        ;
    } else {
        assert(m == 2 * p52);
        assert(binary64_exponent(word) == field + 1);
        assert(binary64_fraction(word) == 0);
        assert(binary64_significand(word) == p52);
        assert(binary64_scale(word) == k - 1);
        let half = pow2((k - 1) as nat) as int;
        lemma_pow2_pos((k - 1) as nat);
        lemma_pow2_strictly_increases((k - 1) as nat, 108);
        let w = binary64_degrees(word).unwrap();
        assert(w.numerator == p52);
        assert(w.denominator == half);
        assert(p == 2 * half);
        let gap = p52 * d - n * half;
        assert(-d <= 4 * gap <= d) by (nonlinear_arith)
            requires
                -d <= 2 * (m * d - n * p) <= d,
                m == 2 * p52,
                p == 2 * half,
                gap == p52 * d - n * half,
        ;
        let tolerance = d * pow2(53);
        let bound = n * (half * d);
        assert(-bound <= gap * tolerance <= bound) by (nonlinear_arith)
            requires
                -d <= 4 * gap <= d,
                tolerance == d * (2 * p52),
                bound == n * (half * d),
                n * (2 * half) >= p52 * d,
                d > 0,
                p52 > 0,
        ;
        assert((-gap) * tolerance == -(gap * tolerance)) by (nonlinear_arith);
        assert((-p52) * d - (-n) * half == -gap) by (nonlinear_arith)
            requires
                gap == p52 * d - n * half,
        ;
    }
}

/// A magnitude of at least `2^-low` and below `2^high` has its binade from
/// `-low` up to `high - 1`.
pub proof fn lemma_binade_is_between(v: DegreesView, low: nat, high: nat)
    requires
        v.wf(),
        v.denominator <= v.numerator * pow2(low),
        v.numerator < pow2(high) * v.denominator,
    ensures
        0 < v.numerator,
        -low <= binade(v) < high,
{
    let n = v.numerator as int;
    let d = v.denominator as int;
    let e = binade(v);
    assert(0 < n) by (nonlinear_arith)
        requires
            d <= n * pow2(low),
            0 < d,
            0 <= n,
    ;
    lemma_binade_holds(v);
    if e >= high {
        let below = pow2(e as nat) as int;
        let above = pow2(high) as int;
        if e > high {
            lemma_pow2_strictly_increases(high, e as nat);
        }
        assert(false) by (nonlinear_arith)
            requires
                below * d <= n < above * d,
                above <= below,
                0 < d,
        ;
    }
    if e < -low {
        let far = pow2((-e) as nat) as int;
        let near = pow2(low) as int;
        lemma_pow2_unfold(low + 1);
        if -e > low + 1 {
            lemma_pow2_strictly_increases(low + 1, (-e) as nat);
        }
        assert(false) by (nonlinear_arith)
            requires
                n * far < 2 * d,
                d <= n * near,
                2 * near <= far,
                0 < n,
        ;
    }
}

} // verus!
