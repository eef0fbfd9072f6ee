//! Rates: what a counter grew by, per second, in single precision.

use vstd::prelude::*;
use vstd::arithmetic::power2::{
    lemma2_to64, lemma_pow2_adds, lemma_pow2_pos, lemma_pow2_strictly_increases, pow2,
};
use crate::float::{
    bit_length, doubled, half_even, lemma_bit_length, lemma_bit_length_below,
    lemma_nearest_normal, lemma_pow2_128, nearest, of_int, product, quotient, round_half_even, scale, scaled_den,
    scaled_num, small_exp, sum, Float, Soft, DOUBLE, SINGLE,
};

verus! {

/// A non-negative number in single precision, given by the bits of its IEEE 754 encoding.
///
/// The bits above those of infinity stand for no number: a rate that has no baseline yet.
#[derive(Debug, Clone, Copy, PartialEq, Eq, Structural)]
pub struct Rate {
    pub bits: u32,
}

/// The encoding of infinity, the greatest that stands for a number.
pub const INFINITE: u32 = 0x7f80_0000;

/// The encoding of the rate without a baseline.
pub const PENDING: u32 = 0x7fc0_0000;

/// The weight of the newest sample in a smoothed rate: 0.3.
pub const NEWEST: u32 = 0x3e99_999a;

/// The weight of the earlier samples in a smoothed rate: 0.7.
pub const EARLIER: u32 = 0x3f33_3333;

/// The number that finite bits encode.
pub open spec fn unpacked(bits: u32) -> Float {
    if bits < 0x80_0000 {
        nearest(bits as nat, 1, SINGLE as nat).shifted(-149)
    } else {
        Float {
            mant: (0x80_0000 + bits % 0x80_0000) as nat,
            exp: bits as int / 0x80_0000 - 150,
        }
    }
}

/// The bits that encode a number with a significand of 24 bits. What is too small for such a
/// significand is rounded to a multiple of `2^-149`.
pub open spec fn packed(f: Float) -> u32 {
    if f.mant == 0 {
        0
    } else if f.exp > 104 {
        INFINITE
    } else if f.exp >= -149 {
        ((f.exp + 149) * 0x80_0000 + f.mant) as u32
    } else {
        half_even(f.mant, pow2((-149 - f.exp) as nat)) as u32
    }
}

/// The bits that encode the single precision number nearest to `num / den * 2^exp`. Below the
/// least number with a significand of 24 bits, it is a multiple of `2^-149`.
pub open spec fn encoded(num: nat, den: nat, exp: int) -> u32 {
    let unit = -149 - exp;
    if scaled_num(num, unit) < scaled_den(den, unit) * 0x80_0000 {
        half_even(scaled_num(num, unit), scaled_den(den, unit)) as u32
    } else {
        packed(nearest(num, den, SINGLE as nat).shifted(exp))
    }
}

impl Rate {
    /// There is no baseline yet.
    pub open spec fn pending(self) -> bool {
        self.bits > INFINITE
    }

    /// The number that it is, where it is finite.
    pub open spec fn value(self) -> Float {
        unpacked(self.bits)
    }
}

/// The rate without a baseline.
pub open spec fn no_rate() -> Rate {
    Rate { bits: PENDING }
}

pub open spec fn zero_rate() -> Rate {
    Rate { bits: 0 }
}

pub open spec fn infinite_rate() -> Rate {
    Rate { bits: INFINITE }
}

/// The sum of two rates, pending where one of them is.
pub open spec fn rate_sum(a: Rate, b: Rate) -> Rate {
    if a.pending() || b.pending() {
        no_rate()
    } else if a.bits == INFINITE || b.bits == INFINITE {
        infinite_rate()
    } else {
        Rate { bits: packed(sum(a.value(), b.value(), SINGLE as nat)) }
    }
}

/// The product of two rates; infinity times zero is no rate.
pub open spec fn rate_product(a: Rate, b: Rate) -> Rate {
    if a.pending() || b.pending() {
        no_rate()
    } else if a.bits == INFINITE || b.bits == INFINITE {
        if a.bits == 0 || b.bits == 0 {
            no_rate()
        } else {
            infinite_rate()
        }
    } else {
        let (x, y) = (a.value(), b.value());
        Rate { bits: encoded(x.mant * y.mant, 1, x.exp + y.exp) }
    }
}

/// The quotient of two single precision numbers; zero by zero is no rate.
pub open spec fn rate_quotient(a: Float, b: Float) -> Rate {
    if b.mant == 0 {
        if a.mant == 0 {
            no_rate()
        } else {
            infinite_rate()
        }
    } else {
        Rate { bits: encoded(a.mant, b.mant, a.exp - b.exp) }
    }
}

/// A new sample blended into a smoothed rate.
pub open spec fn smoothed(sample: Rate, previous: Rate) -> Rate {
    rate_sum(
        rate_product(Rate { bits: NEWEST }, sample),
        rate_product(Rate { bits: EARLIER }, previous),
    )
}

/// Milliseconds in seconds, in double precision.
pub open spec fn millis_in_seconds(ms: nat) -> Float {
    quotient(of_int(ms, DOUBLE as nat), of_int(1000, DOUBLE as nat), DOUBLE as nat)
}

/// Milliseconds in seconds, in single precision.
pub open spec fn millis_in_short_seconds(ms: nat) -> Float {
    quotient(of_int(ms, SINGLE as nat), of_int(1000, SINGLE as nat), SINGLE as nat)
}

/// A duration in seconds: the whole seconds plus the fraction, in the given precision.
pub open spec fn duration_in_seconds(whole: nat, nanos: nat, p: nat) -> Float {
    sum(of_int(whole, p), quotient(of_int(nanos, p), of_int(1_000_000_000, p), p), p)
}

/// Nanoseconds in seconds, in double precision.
pub open spec fn nanos_in_seconds(ns: nat) -> Float {
    duration_in_seconds(ns / 1_000_000_000, ns % 1_000_000_000, DOUBLE as nat)
}

/// An interval in milliseconds in seconds, in single precision.
pub open spec fn interval_in_seconds(ms: nat) -> Float {
    duration_in_seconds(ms / 1000, (ms % 1000) * 1_000_000, SINGLE as nat)
}

/// Nanoseconds in seconds, in single precision.
pub open spec fn nanos_in_short_seconds(ns: nat) -> Float {
    duration_in_seconds(ns / 1_000_000_000, ns % 1_000_000_000, SINGLE as nat)
}

/// The share of one processor in percent: `used / per_second / seconds * 100`.
pub open spec fn cpu_share(used: nat, per_second: nat, seconds: Float) -> Rate {
    let p = DOUBLE as nat;
    let used_seconds = quotient(of_int(used, p), of_int(per_second, p), p);
    let share = product(quotient(used_seconds, seconds, p), of_int(100, p), p);
    Rate { bits: encoded(share.mant, 1, share.exp) }
}

/// The bytes per second: `bytes / seconds`.
pub open spec fn byte_rate(bytes: nat, seconds: Float) -> Rate {
    let p = DOUBLE as nat;
    let rate = quotient(of_int(bytes, p), seconds, p);
    Rate { bits: encoded(rate.mant, 1, rate.exp) }
}

/// What a counter grew by; nothing where it went back.
pub open spec fn growth(now: u64, before: u64) -> nat {
    if now >= before {
        (now - before) as nat
    } else {
        0
    }
}

/// A small integer is encoded exactly.
proof fn lemma_nearest_small(n: nat)
    requires
        0 < n < 0x80_0000,
    ensures
        ({
            let f = nearest(n, 1, SINGLE as nat);
            &&& -24 < f.exp < 0
            &&& f.mant == n * pow2((-f.exp) as nat)
        }),
{
    reveal(nearest);
    let l = bit_length(n);
    lemma_bit_length(n);
    lemma_pow2_128();
    lemma_bit_length_below(n, 23);
    lemma2_to64();
    assert(bit_length(1) == 1) by {
        assert(bit_length(0) == 0);
    }
    let k = (24 - l) as nat;
    let first = l - 1 - 24;
    let a0 = scaled_num(n, first);
    assert(a0 == n * pow2((k + 1) as nat));
    assert(scaled_den(1, first) == 1);
    assert(a0 / 1 == a0);
    lemma_pow2_adds((l - 1) as nat, (k + 1) as nat);
    assert((l - 1) as nat + (k + 1) as nat == 24);
    assert(n * pow2((k + 1) as nat) >= pow2((l - 1) as nat) * pow2((k + 1) as nat)) by (nonlinear_arith)
        requires
            n >= pow2((l - 1) as nat),
    ;
    assert(scale(n, 1, 24) == -k);
    let a = scaled_num(n, -k);
    assert(a == n * pow2(k));
    assert(scaled_den(1, -k) == 1);
    lemma_pow2_adds(l, k);
    lemma_pow2_pos(k);
    assert(n * pow2(k) < pow2(l) * pow2(k)) by (nonlinear_arith)
        requires
            n < pow2(l),
            pow2(k) > 0,
    ;
    assert(half_even(a, 1) == a) by {
        assert(a / 1 == a);
        assert(a % 1 == 0);
    }
}

proof fn lemma_product_below(x: nat, y: nat)
    requires
        x < 0x100_0000,
        y < 0x100_0000,
    ensures
        x * y < 0x1_0000_0000_0000,
{
    assert(x * y <= 0xff_ffff * 0xff_ffff) by (nonlinear_arith)
        requires
            x <= 0xff_ffff,
            y <= 0xff_ffff,
    ;
}

/// Zero is encoded as zero.
proof fn lemma_nothing_is_small(den: nat, unit: int)
    requires
        den > 0,
    ensures
        scaled_num(0, unit) == 0,
        scaled_den(den, unit) > 0,
        half_even(0, scaled_den(den, unit)) == 0,
{
    if unit >= 0 {
        lemma_pow2_pos(unit as nat);
        assert(den * pow2(unit as nat) > 0) by (nonlinear_arith)
            requires
                den > 0,
                pow2(unit as nat) > 0,
        ;
    } else {
        assert(0 * pow2((-unit) as nat) == 0);
    }
    let d = scaled_den(den, unit);
    vstd::arithmetic::div_mod::lemma_fundamental_div_mod_converse(0, d as int, 0, 0);
}

/// A number far below the unit is encoded as zero.
proof fn lemma_far_below(num: nat, den: nat, k: nat)
    requires
        num < 0x20_0000_0000_0000,
        den > 0,
        k >= 64,
    ensures
        num < den * pow2(k) * 0x80_0000,
        half_even(num, den * pow2(k)) == 0,
{
    lemma_pow2_128();
    if k > 64 {
        lemma_pow2_strictly_increases(64, k);
    }
    let d = den * pow2(k);
    assert(d >= pow2(k)) by (nonlinear_arith)
        requires
            d == den * pow2(k),
            den >= 1,
    ;
    vstd::arithmetic::div_mod::lemma_fundamental_div_mod_converse(num as int, d as int, 0, num as int);
}

/// A number far above the unit has a significand of 24 bits.
proof fn lemma_far_above(num: nat, den: nat, k: nat)
    requires
        num > 0,
        den < 0x100_0000,
        k >= 64,
    ensures
        num * pow2(k) >= den * 0x80_0000,
{
    lemma_pow2_128();
    if k > 64 {
        lemma_pow2_strictly_increases(64, k);
    }
    assert(num * pow2(k) >= pow2(k)) by (nonlinear_arith)
        requires
            num >= 1,
    ;
}

proof fn lemma_doubled_fits(x: nat, k: nat)
    requires
        x < 0x20_0000_0000_0000,
        k < 64,
    ensures
        x * pow2(k) < 0x20_0000_0000_0000_0000_0000_0000_0000int,
{
    lemma_pow2_128();
    lemma_pow2_strictly_increases(k, 64);
    assert(x * pow2(k) < 0x20_0000_0000_0000_0000_0000_0000_0000int) by (nonlinear_arith)
        requires
            x < 0x20_0000_0000_0000,
            pow2(k) < 0x1_0000_0000_0000_0000int,
    ;
}

/// Unpacking and packing a number gives its bits back.
pub proof fn lemma_packed_unpacked(bits: u32)
    requires
        bits < INFINITE,
    ensures
        packed(unpacked(bits)) == bits,
        unpacked(bits).normal(SINGLE as nat),
        small_exp(unpacked(bits), 400),
        unpacked(bits).exp <= 104,
{
    lemma_pow2_128();
    if bits == 0 {
        lemma_nearest_normal(0, 1, 24);
    } else if bits < 0x80_0000 {
        lemma_nearest_small(bits as nat);
        lemma_nearest_normal(bits as nat, 1, 24);
        let f = nearest(bits as nat, 1, 24);
        let j = (-f.exp) as nat;
        lemma_pow2_pos(j);
        vstd::arithmetic::div_mod::lemma_fundamental_div_mod_converse(
            f.mant as int,
            pow2(j) as int,
            bits as int,
            0,
        );
        assert(half_even(f.mant, pow2(j)) == bits);
    } else {
        let e = bits as int / 0x80_0000;
        assert(bits == e * 0x80_0000 + bits % 0x80_0000);
    }
}

/// Packing never gives the bits of a pending rate.
pub proof fn lemma_packed_is_number(f: Float)
    requires
        f.normal(SINGLE as nat),
    ensures
        packed(f) <= INFINITE,
{
    lemma_pow2_128();
    if f.mant != 0 && f.exp < -149 {
        let d = pow2((-149 - f.exp) as nat);
        lemma_pow2_pos((-149 - f.exp) as nat);
        assert(half_even(f.mant, d) <= f.mant + 1) by {
            let q = f.mant / d;
            assert(q <= f.mant) by (nonlinear_arith)
                requires
                    q == f.mant / d,
                    d > 0,
            ;
        }
    }
}

/// Adding zero changes no rate but turns every pending one into the same.
pub proof fn rate_sum_with_zero(r: Rate)
    ensures
        !r.pending() ==> rate_sum(zero_rate(), r) == r,
        r.pending() ==> rate_sum(zero_rate(), r) == no_rate(),
{
    if r.bits < INFINITE {
        let z = unpacked(0);
        let f = r.value();
        lemma_packed_unpacked(r.bits);
        lemma_nearest_normal(0, 1, 24);
        assert(z == Float { mant: 0, exp: 0 });
        let p = SINGLE as nat;
        if r.bits == 0 {
            assert(f == z);
            assert(0 * pow2(0) == 0);
            assert(sum(z, f, p) == z);
        } else {
            lemma_pow2_128();
            if f.mant == 0 {
                if r.bits < 0x80_0000 {
                    lemma_nearest_normal(r.bits as nat, 1, p);
                }
            }
            assert(f.mant > 0);
            if z.exp >= f.exp {
                assert(0 * pow2((z.exp - f.exp) as nat) == 0);
                crate::float::lemma_nearest_self(f, p);
            } else {
                let k = (f.exp - z.exp) as nat;
                lemma_pow2_pos(k);
                crate::float::lemma_nearest_exact(f.mant, k, 0, p);
            }
            assert(sum(z, f, p) == f);
        }
    }
}

/// The order of two numbers is the order of their bits.
pub open spec fn rate_less(a: Rate, b: Rate) -> bool {
    !a.pending() && !b.pending() && a.bits < b.bits
}

impl Rate {
    /// A rate from the bits of a single precision number. The bits of a negative number or of a
    /// value that is no number give a pending rate.
    pub fn from_bits(bits: u32) -> (r: Rate)
        ensures
            r.bits == bits,
    {
        Rate { bits }
    }

    /// Tests for a rate without a baseline.
    pub fn is_pending(self) -> (r: bool)
        ensures
            r == self.pending(),
    {
        self.bits > INFINITE
    }

    /// The number that the bits encode.
    pub fn soft(self) -> (r: Soft)
        requires
            self.bits < INFINITE,
        ensures
            r@ == self.value(),
            r.ready(SINGLE, 400),
    {
        proof {
            lemma_packed_unpacked(self.bits);
        }
        if self.bits < 0x80_0000 {
            let f = Soft::of(self.bits as u64, SINGLE);
            if f.mant == 0 {
                f
            } else {
                Soft { mant: f.mant, exp: f.exp - 149 }
            }
        } else {
            Soft {
                mant: (0x80_0000 + self.bits % 0x80_0000) as u64,
                exp: (self.bits / 0x80_0000) as i32 - 150,
            }
        }
    }

    /// The rate that a number of 24 bits is.
    pub fn pack(f: Soft) -> (r: Rate)
        requires
            f.ready(SINGLE, 1_000_000),
        ensures
            r.bits == packed(f@),
            !r.pending(),
    {
        proof {
            lemma_packed_is_number(f@);
            lemma_pow2_128();
        }
        if f.mant == 0 {
            Rate { bits: 0 }
        } else if f.exp > 104 {
            Rate { bits: INFINITE }
        } else if f.exp >= -149 {
            Rate { bits: (f.exp + 149) as u32 * 0x80_0000 + f.mant as u32 }
        } else {
            let k: u32 = (-149 - f.exp) as u32;
            if k >= 26 {
                proof {
                    lemma2_to64();
                    if k > 26 {
                        lemma_pow2_strictly_increases(26, k as nat);
                    }
                    let d = pow2(k as nat);
                    vstd::arithmetic::div_mod::lemma_fundamental_div_mod_converse(
                        f.mant as int,
                        d as int,
                        0,
                        f.mant as int,
                    );
                }
                Rate { bits: 0 }
            } else {
                proof {
                    lemma_pow2_strictly_increases(k as nat, 53);
                    lemma_pow2_pos(k as nat);
                    let d = pow2(k as nat);
                    let q = f.mant as nat / d;
                    assert(q <= f.mant) by (nonlinear_arith)
                        requires
                            q == f.mant as nat / d,
                            d > 0,
                    ;
                }
                let d: u128 = doubled(1, k);
                Rate { bits: round_half_even(f.mant as u128, d) as u32 }
            }
        }
    }

    /// The rate nearest to `num / den * 2^exp`, where `f` is that number with 24 bits.
    fn encode(num: u64, den: u64, exp: i32, f: Soft) -> (r: Rate)
        requires
            num < 0x20_0000_0000_0000,
            0 < den < 0x100_0000,
            -100_000 < exp < 100_000,
            f@ == nearest(num as nat, den as nat, SINGLE as nat).shifted(exp as int),
            f.ready(SINGLE, 1_000_000),
        ensures
            r.bits == encoded(num as nat, den as nat, exp as int),
            !r.pending(),
    {
        let unit: i32 = -149 - exp;
        if num == 0 {
            proof {
                lemma_nothing_is_small(den as nat, unit as int);
            }
            Rate { bits: 0 }
        } else if unit >= 64 {
            proof {
                lemma_far_below(num as nat, den as nat, unit as nat);
            }
            Rate { bits: 0 }
        } else if unit <= -64 {
            proof {
                lemma_far_above(num as nat, den as nat, (-unit) as nat);
            }
            Rate::pack(f)
        } else {
            let (n, d): (u128, u128) = if unit < 0 {
                proof {
                    lemma_doubled_fits(num as nat, (-unit) as nat);
                }
                (doubled(num as u128, (-unit) as u32), den as u128)
            } else {
                proof {
                    lemma_doubled_fits(den as nat, unit as nat);
                    lemma_pow2_pos(unit as nat);
                    assert(den * pow2(unit as nat) > 0) by (nonlinear_arith)
                        requires
                            den > 0,
                            pow2(unit as nat) > 0,
                    ;
                }
                (num as u128, doubled(den as u128, unit as u32))
            };
            if n / 0x80_0000 < d {
                proof {
                    let q = n as nat / d as nat;
                    assert(q < 0x80_0000) by (nonlinear_arith)
                        requires
                            q == n as nat / d as nat,
                            n < d * 0x80_0000,
                            d > 0,
                    ;
                }
                Rate { bits: round_half_even(n, d) as u32 }
            } else {
                Rate::pack(f)
            }
        }
    }

    /// The sum of two rates.
    pub fn plus(self, other: Rate) -> (r: Rate)
        ensures
            r == rate_sum(self, other),
    {
        if self.is_pending() || other.is_pending() {
            Rate { bits: PENDING }
        } else if self.bits == INFINITE || other.bits == INFINITE {
            Rate { bits: INFINITE }
        } else {
            Rate::pack(self.soft().plus(other.soft(), SINGLE))
        }
    }

    /// The product of two rates.
    pub fn times(self, other: Rate) -> (r: Rate)
        ensures
            r == rate_product(self, other),
    {
        if self.is_pending() || other.is_pending() {
            Rate { bits: PENDING }
        } else if self.bits == INFINITE || other.bits == INFINITE {
            if self.bits == 0 || other.bits == 0 {
                Rate { bits: PENDING }
            } else {
                Rate { bits: INFINITE }
            }
        } else {
            let (x, y) = (self.soft(), other.soft());
            proof {
                lemma_pow2_128();
                lemma_product_below(x.mant as nat, y.mant as nat);
            }
            Rate::encode(x.mant * y.mant, 1, x.exp + y.exp, x.mul(y, SINGLE))
        }
    }

    /// The quotient of two single precision numbers.
    pub fn of_quotient(a: Soft, b: Soft) -> (r: Rate)
        requires
            a.ready(SINGLE, 1000),
            b.ready(SINGLE, 1000),
        ensures
            r == rate_quotient(a@, b@),
    {
        if b.mant == 0 {
            if a.mant == 0 {
                Rate { bits: PENDING }
            } else {
                Rate { bits: INFINITE }
            }
        } else {
            proof {
                lemma_pow2_128();
            }
            Rate::encode(a.mant, b.mant, a.exp - b.exp, a.div(b, SINGLE))
        }
    }

    /// The share of one processor in percent.
    pub fn of_cpu(used: u64, per_second: u64, seconds: Soft) -> (r: Rate)
        requires
            per_second > 0,
            seconds.ready(DOUBLE, 2000),
            seconds.mant > 0,
        ensures
            r == cpu_share(used as nat, per_second as nat, seconds@),
    {
        let used_seconds = Rate::used_seconds(used, per_second);
        let share = Rate::percent(used_seconds.div(seconds, DOUBLE));
        proof {
            lemma_pow2_128();
        }
        Rate::encode(share.mant, 1, share.exp, share.to_single())
    }

    fn used_seconds(used: u64, per_second: u64) -> (r: Soft)
        requires
            per_second > 0,
        ensures
            r@ == quotient(
                of_int(used as nat, DOUBLE as nat),
                of_int(per_second as nat, DOUBLE as nat),
                DOUBLE as nat,
            ),
            r.ready(DOUBLE, 1000),
    {
        Soft::of(used, DOUBLE).div(Soft::of(per_second, DOUBLE), DOUBLE)
    }

    fn percent(share: Soft) -> (r: Soft)
        requires
            share.ready(DOUBLE, 5000),
        ensures
            r@ == product(share@, of_int(100, DOUBLE as nat), DOUBLE as nat),
            r.ready(DOUBLE, 10_000),
    {
        share.mul(Soft::of(100, DOUBLE), DOUBLE)
    }

    /// The bytes per second.
    pub fn of_bytes(bytes: u64, seconds: Soft) -> (r: Rate)
        requires
            seconds.ready(DOUBLE, 2000),
            seconds.mant > 0,
        ensures
            r == byte_rate(bytes as nat, seconds@),
    {
        let rate = Soft::of(bytes, DOUBLE).div(seconds, DOUBLE);
        proof {
            lemma_pow2_128();
        }
        Rate::encode(rate.mant, 1, rate.exp, rate.to_single())
    }

    /// This rate with a new sample blended in.
    pub fn blend(self, sample: Rate) -> (r: Rate)
        ensures
            r == smoothed(sample, self),
    {
        let newest = Rate { bits: NEWEST };
        let earlier = Rate { bits: EARLIER };
        newest.times(sample).plus(earlier.times(self))
    }
}

/// Milliseconds in seconds, in double precision.
pub fn seconds_of_millis(ms: u64) -> (r: Soft)
    ensures
        r@ == millis_in_seconds(ms as nat),
        r.ready(DOUBLE, 2000),
        ms > 0 ==> r.mant > 0,
{
    Soft::of(ms, DOUBLE).div(Soft::of(1000, DOUBLE), DOUBLE)
}

/// Milliseconds in seconds, in single precision.
pub fn short_seconds_of_millis(ms: u64) -> (r: Soft)
    ensures
        r@ == millis_in_short_seconds(ms as nat),
        r.ready(SINGLE, 1000),
        ms > 0 ==> r.mant > 0,
{
    Soft::of(ms, SINGLE).div(Soft::of(1000, SINGLE), SINGLE)
}

/// Nanoseconds in seconds, in single precision.
pub fn short_seconds_of_nanos(ns: u64) -> (r: Soft)
    ensures
        r@ == nanos_in_short_seconds(ns as nat),
        r.ready(SINGLE, 1000),
        ns > 0 ==> r.mant > 0,
{
    let whole = Soft::of(ns / 1_000_000_000, SINGLE);
    let part = Soft::of(ns % 1_000_000_000, SINGLE).div(Soft::of(1_000_000_000, SINGLE), SINGLE);
    whole.plus(part, SINGLE)
}

/// Nanoseconds in seconds, in double precision.
pub fn seconds_of_nanos(ns: u64) -> (r: Soft)
    ensures
        r@ == nanos_in_seconds(ns as nat),
        r.ready(DOUBLE, 2000),
        ns > 0 ==> r.mant > 0,
{
    let whole = Soft::of(ns / 1_000_000_000, DOUBLE);
    let part = Soft::of(ns % 1_000_000_000, DOUBLE).div(Soft::of(1_000_000_000, DOUBLE), DOUBLE);
    whole.plus(part, DOUBLE)
}

/// An interval in milliseconds in seconds, in single precision.
pub fn seconds_of_interval(ms: u64) -> (r: Soft)
    ensures
        r@ == interval_in_seconds(ms as nat),
        r.ready(SINGLE, 1000),
{
    let whole = Soft::of(ms / 1000, SINGLE);
    let nanos: u64 = (ms % 1000) * 1_000_000;
    let part = Soft::of(nanos, SINGLE).div(Soft::of(1_000_000_000, SINGLE), SINGLE);
    whole.plus(part, SINGLE)
}

/// A finite rate as a multiple of the least one, which is `2^-149`.
pub open spec fn in_units(r: Rate) -> nat {
    if r.bits < 0x80_0000 {
        r.bits as nat
    } else {
        ((0x80_0000 + r.bits % 0x80_0000) as nat) * pow2((r.bits / 0x80_0000 - 1) as nat)
    }
}

/// The units are units of the value.
pub proof fn units_make_the_value(r: Rate)
    requires
        r.bits < INFINITE,
    ensures
        r.value().exp >= -149 ==> r.value().mant * pow2((r.value().exp + 149) as nat) == in_units(r),
        r.value().exp < -149 ==> r.value().mant == in_units(r) * pow2((-149 - r.value().exp) as nat),
{
    if r.bits == 0 {
        lemma_nearest_normal(0, 1, 24);
        reveal(nearest);
        assert(0 * pow2(149) == 0);
    } else if r.bits < 0x80_0000 {
        lemma_nearest_small(r.bits as nat);
        lemma_nearest_normal(r.bits as nat, 1, 24);
    }
}

/// Rates are ordered as the numbers that they are.
pub proof fn rates_are_ordered_by_value(a: Rate, b: Rate)
    requires
        a.bits < INFINITE,
        b.bits < INFINITE,
    ensures
        rate_less(a, b) <==> in_units(a) < in_units(b),
{
    if a.bits < b.bits {
        lemma_units_increase(a, b);
    } else if b.bits < a.bits {
        lemma_units_increase(b, a);
    }
}

proof fn lemma_units_increase(a: Rate, b: Rate)
    requires
        a.bits < b.bits < INFINITE,
    ensures
        in_units(a) < in_units(b),
{
    let ea = (a.bits / 0x80_0000) as nat;
    let eb = (b.bits / 0x80_0000) as nat;
    let ma = (0x80_0000 + a.bits % 0x80_0000) as nat;
    let mb = (0x80_0000 + b.bits % 0x80_0000) as nat;
    assert(a.bits == ea * 0x80_0000 + a.bits % 0x80_0000);
    assert(b.bits == eb * 0x80_0000 + b.bits % 0x80_0000);
    if eb > 0 {
        let pb = pow2((eb - 1) as nat);
        lemma_pow2_pos((eb - 1) as nat);
        if ea == eb {
            assert(ma * pb < mb * pb) by (nonlinear_arith)
                requires
                    ma < mb,
                    pb > 0,
            ;
        } else if ea == 0 {
            assert(mb * pb >= 0x80_0000) by (nonlinear_arith)
                requires
                    mb >= 0x80_0000,
                    pb >= 1,
            ;
        } else {
            let pa = pow2((ea - 1) as nat);
            lemma_pow2_pos((ea - 1) as nat);
            vstd::arithmetic::power2::lemma_pow2_unfold(ea);
            if ea < eb - 1 {
                lemma_pow2_strictly_increases(ea, (eb - 1) as nat);
            }
            assert(ma * pa < mb * pb) by (nonlinear_arith)
                requires
                    ma < 0x100_0000,
                    0x80_0000 <= mb,
                    0 < pa,
                    2 * pa <= pb,
            ;
        }
    }
}

/// A smoothed rate is three tenths of the new sample and seven tenths of what it was, in single
/// precision.
pub proof fn newest_sample_counts_three_tenths(sample: Rate, previous: Rate)
    ensures
        smoothed(sample, previous) == rate_sum(
            rate_product(Rate { bits: 0x3e99_999a }, sample),
            rate_product(Rate { bits: 0x3f33_3333 }, previous),
        ),
        sample.pending() || previous.pending() ==> smoothed(sample, previous).pending(),
{
}

}
