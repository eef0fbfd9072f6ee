//! Binary floating point numbers of a given precision, rounded to nearest with ties to even.
//!
//! A number is an integer times a power of two. The range of exponents is not limited here; the
//! packing into 32 bits is in the module `rate`.

use vstd::prelude::*;
use vstd::arithmetic::power2::{
    lemma2_to64, lemma_pow2_adds, lemma_pow2_pos, lemma_pow2_strictly_increases, lemma_pow2_unfold,
    pow2,
};

verus! {

/// The bits in the significand of a single precision number.
pub const SINGLE: u32 = 24;

/// The bits in the significand of a double precision number.
pub const DOUBLE: u32 = 53;

/// The integer nearest to a quotient, the even one of two that are equally near.
pub open spec fn half_even(n: nat, d: nat) -> nat
    recommends
        d > 0,
{
    let q = n / d;
    let r = n % d;
    if 2 * r < d || (2 * r == d && q % 2 == 0) {
        q
    } else {
        q + 1
    }
}

/// The number of binary digits.
pub open spec fn bit_length(n: nat) -> nat
    decreases n,
{
    if n == 0 {
        0
    } else {
        1 + bit_length(n / 2)
    }
}

/// The numerator of `num / den` divided by `2^s`.
pub open spec fn scaled_num(num: nat, s: int) -> nat {
    if s < 0 {
        num * pow2((-s) as nat)
    } else {
        num
    }
}

/// The denominator of `num / den` divided by `2^s`.
pub open spec fn scaled_den(den: nat, s: int) -> nat {
    if s < 0 {
        den
    } else {
        den * pow2(s as nat)
    }
}

/// The exponent at which `num / den` has exactly `p` binary digits before the point.
pub open spec fn scale(num: nat, den: nat, p: nat) -> int {
    let s = bit_length(num) - bit_length(den) - p;
    if scaled_num(num, s) / scaled_den(den, s) >= pow2(p) {
        s + 1
    } else {
        s
    }
}

/// The number `mant * 2^exp`.
pub struct Float {
    pub mant: nat,
    pub exp: int,
}

impl Float {
    /// The number times a power of two.
    pub open spec fn shifted(self, e: int) -> Float {
        if self.mant == 0 {
            self
        } else {
            Float { mant: self.mant, exp: self.exp + e }
        }
    }

    /// Zero, or a significand of exactly `p` bits.
    pub open spec fn normal(self, p: nat) -> bool {
        self.mant == 0 || (p > 0 && pow2((p - 1) as nat) <= self.mant < pow2(p))
    }
}

/// The number with a significand of `p` bits that is nearest to a quotient.
#[verifier::opaque]
pub open spec fn nearest(num: nat, den: nat, p: nat) -> Float {
    if num == 0 {
        Float { mant: 0, exp: 0 }
    } else {
        let s = scale(num, den, p);
        let m = half_even(scaled_num(num, s), scaled_den(den, s));
        if m == pow2(p) {
            Float { mant: pow2((p - 1) as nat), exp: s + 1 }
        } else {
            Float { mant: m, exp: s }
        }
    }
}

/// An integer as a number of precision `p`.
pub open spec fn of_int(n: nat, p: nat) -> Float {
    nearest(n, 1, p)
}

/// A quotient, rounded to precision `p`.
pub open spec fn quotient(a: Float, b: Float, p: nat) -> Float {
    nearest(a.mant, b.mant, p).shifted(a.exp - b.exp)
}

/// A product, rounded to precision `p`.
pub open spec fn product(a: Float, b: Float, p: nat) -> Float {
    nearest(a.mant * b.mant, 1, p).shifted(a.exp + b.exp)
}

/// The exact sum of two numbers, the first with the higher exponent, as an integer at the lower.
pub open spec fn aligned(hi: Float, lo: Float) -> nat {
    (hi.mant * pow2((hi.exp - lo.exp) as nat) + lo.mant) as nat
}

/// A sum, rounded to precision `p`.
pub open spec fn sum(a: Float, b: Float, p: nat) -> Float {
    if a.exp >= b.exp {
        nearest(aligned(a, b), 1, p).shifted(b.exp)
    } else {
        nearest(aligned(b, a), 1, p).shifted(a.exp)
    }
}

/// The number at another precision.
pub open spec fn reduced(a: Float, p: nat) -> Float {
    nearest(a.mant, 1, p).shifted(a.exp)
}

/// No integer is nearer to the quotient than the one that `half_even` gives.
pub proof fn half_even_is_nearest(n: nat, d: nat, k: nat)
    requires
        d > 0,
    ensures
        ({
            let m = half_even(n, d);
            let off = if n >= m * d { n - m * d } else { m * d - n };
            let other = if n >= k * d { n - k * d } else { k * d - n };
            2 * off <= d && off <= other
        }),
{
    let q = n / d;
    let r = n % d;
    vstd::arithmetic::div_mod::lemma_fundamental_div_mod(n as int, d as int);
    assert(n == d * q + r);
    assert(d * q == q * d) by (nonlinear_arith);
    assert((q + 1) * d == q * d + d) by (nonlinear_arith);
    if k <= q {
        assert(k * d <= q * d) by (nonlinear_arith)
            requires
                k <= q,
        ;
    } else {
        assert(k * d >= (q + 1) * d) by (nonlinear_arith)
            requires
                k >= q + 1,
        ;
    }
}

pub proof fn lemma_bit_length(n: nat)
    requires
        n > 0,
    ensures
        bit_length(n) > 0,
        pow2((bit_length(n) - 1) as nat) <= n < pow2(bit_length(n)),
    decreases n,
{
    let h = n / 2;
    if h == 0 {
        assert(n == 1);
        assert(bit_length(0) == 0);
        lemma2_to64();
    } else {
        lemma_bit_length(h);
        lemma_pow2_unfold(bit_length(n));
        lemma_pow2_unfold((bit_length(n) - 1) as nat);
    }
}

/// A number below a power of two has no more bits than its exponent.
pub proof fn lemma_bit_length_below(n: nat, k: nat)
    requires
        n < pow2(k),
    ensures
        bit_length(n) <= k,
{
    if n > 0 {
        lemma_bit_length(n);
        if bit_length(n) > k {
            if k < bit_length(n) - 1 {
                lemma_pow2_strictly_increases(k, (bit_length(n) - 1) as nat);
            }
        }
    }
}

proof fn lemma_pow2_product(x: nat, a: nat, k: nat)
    requires
        x < pow2(a),
    ensures
        x * pow2(k) < pow2(a + k),
{
    lemma_pow2_adds(a, k);
    lemma_pow2_pos(k);
    assert(x * pow2(k) < pow2(a) * pow2(k)) by (nonlinear_arith)
        requires
            x < pow2(a),
            pow2(k) > 0,
    ;
}

proof fn lemma_pow2_product_low(x: nat, a: nat, k: nat)
    requires
        x >= pow2(a),
    ensures
        x * pow2(k) >= pow2(a + k),
{
    lemma_pow2_adds(a, k);
    assert(x * pow2(k) >= pow2(a) * pow2(k)) by (nonlinear_arith)
        requires
            x >= pow2(a),
    ;
}

/// At the first guess of the exponent the quotient has `p` or `p + 1` bits.
proof fn lemma_first_scale(num: nat, den: nat, p: nat)
    requires
        num > 0,
        den > 0,
        p > 0,
    ensures
        ({
            let s = bit_length(num) - bit_length(den) - p;
            let a = scaled_num(num, s);
            let b = scaled_den(den, s);
            &&& b > 0
            &&& b * pow2((p - 1) as nat) <= a
            &&& a < b * pow2(p + 1)
        }),
{
    let ln = bit_length(num);
    let ld = bit_length(den);
    let s = ln - ld - p;
    let a = scaled_num(num, s);
    let b = scaled_den(den, s);
    lemma_bit_length(num);
    lemma_bit_length(den);
    let top: nat = if s < 0 { ld + p } else { ln };
    let bot: nat = if s < 0 { ld } else { (ld + s) as nat };
    assert(top == bot + p);
    if s < 0 {
        let k = (-s) as nat;
        lemma_pow2_product(num, ln, k);
        lemma_pow2_product_low(num, (ln - 1) as nat, k);
        assert((ln - 1) as nat + k == (top - 1) as nat);
    } else {
        let k = s as nat;
        lemma_pow2_product(den, ld, k);
        lemma_pow2_product_low(den, (ld - 1) as nat, k);
        assert((ld - 1) as nat + k == (bot - 1) as nat);
    }
    assert(pow2((top - 1) as nat) <= a < pow2(top));
    assert(pow2((bot - 1) as nat) <= b < pow2(bot));
    lemma_pow2_pos((bot - 1) as nat);
    lemma_pow2_product(b, bot, (p - 1) as nat);
    assert(bot + (p - 1) as nat == (top - 1) as nat);
    lemma_pow2_product_low(b, (bot - 1) as nat, p + 1);
    assert((bot - 1) as nat + (p + 1) == top);
}

/// At the exponent that `scale` gives the quotient has exactly `p` bits.
pub proof fn lemma_scale(num: nat, den: nat, p: nat)
    requires
        num > 0,
        den > 0,
        p > 0,
    ensures
        ({
            let s = scale(num, den, p);
            let a = scaled_num(num, s);
            let b = scaled_den(den, s);
            &&& b > 0
            &&& b * pow2((p - 1) as nat) <= a < b * pow2(p)
        }),
{
    let s0 = bit_length(num) - bit_length(den) - p;
    let a0 = scaled_num(num, s0);
    let b0 = scaled_den(den, s0);
    lemma_first_scale(num, den, p);
    vstd::arithmetic::div_mod::lemma_fundamental_div_mod(a0 as int, b0 as int);
    let q = a0 / b0;
    let r = a0 % b0;
    assert(a0 == b0 * q + r);
    let s = scale(num, den, p);
    let a = scaled_num(num, s);
    let b = scaled_den(den, s);
    lemma_pow2_unfold(p);
    lemma_pow2_unfold(p + 1);
    assert(pow2(p) == 2 * pow2((p - 1) as nat));
    assert(pow2(p + 1) == 2 * pow2(p));
    if q >= pow2(p) {
        assert(b0 * q >= b0 * pow2(p)) by (nonlinear_arith)
            requires
                q >= pow2(p),
        ;
        if s0 < 0 {
            let k = (-s0) as nat;
            lemma_pow2_unfold(k);
            assert(num * pow2(k) == 2 * (num * pow2((k - 1) as nat))) by (nonlinear_arith)
                requires
                    pow2(k) == 2 * pow2((k - 1) as nat),
            ;
            if s0 + 1 < 0 {
                assert(a0 == 2 * a);
                assert(b0 == b);
            } else {
                lemma2_to64();
                assert(pow2(0) == 1);
                assert(a == num);
                assert(k == 1);
                assert(num * pow2(0) == num) by (nonlinear_arith)
                    requires
                        pow2(0) == 1,
                ;
                assert(den * pow2(0) == den) by (nonlinear_arith)
                    requires
                        pow2(0) == 1,
                ;
                assert(a0 == 2 * a);
                assert(b0 == b);
            }
            assert(b * pow2(p + 1) == 2 * (b * pow2(p))) by (nonlinear_arith)
                requires
                    pow2(p + 1) == 2 * pow2(p),
            ;
            assert(b * pow2(p) == 2 * (b * pow2((p - 1) as nat))) by (nonlinear_arith)
                requires
                    pow2(p) == 2 * pow2((p - 1) as nat),
            ;
        } else {
            let k = s0 as nat;
            lemma_pow2_unfold((k + 1) as nat);
            assert(den * pow2((k + 1) as nat) == 2 * (den * pow2(k))) by (nonlinear_arith)
                requires
                    pow2((k + 1) as nat) == 2 * pow2(k),
            ;
            assert(b == 2 * b0);
            assert(a == a0);
            assert(b * pow2(p) == b0 * pow2(p + 1)) by (nonlinear_arith)
                requires
                    b == 2 * b0,
                    pow2(p + 1) == 2 * pow2(p),
            ;
            assert(b * pow2((p - 1) as nat) == b0 * pow2(p)) by (nonlinear_arith)
                requires
                    b == 2 * b0,
                    pow2(p) == 2 * pow2((p - 1) as nat),
            ;
        }
    } else {
        assert(b0 * q + b0 <= b0 * pow2(p)) by (nonlinear_arith)
            requires
                q + 1 <= pow2(p),
        ;
    }
}

/// A quotient between two integers is rounded to one of them or to one between.
proof fn lemma_half_even_range(n: nat, d: nat, lo: nat, hi: nat)
    requires
        d > 0,
        d * lo <= n < d * hi,
    ensures
        lo <= half_even(n, d) <= hi,
{
    vstd::arithmetic::div_mod::lemma_fundamental_div_mod(n as int, d as int);
    let q = n / d;
    let r = n % d;
    assert(q >= lo) by (nonlinear_arith)
        requires
            d * lo <= n,
            n == d * q + r,
            r < d,
            d > 0,
    ;
    assert(q < hi) by (nonlinear_arith)
        requires
            n < d * hi,
            n == d * q + r,
            r >= 0,
            d > 0,
    ;
}

/// Rounding gives a number of the asked precision.
pub proof fn lemma_nearest_normal(num: nat, den: nat, p: nat)
    requires
        den > 0,
        p > 0,
    ensures
        nearest(num, den, p).normal(p),
        num > 0 ==> nearest(num, den, p).mant > 0,
        num == 0 ==> nearest(num, den, p) == (Float { mant: 0, exp: 0 }),
{
    reveal(nearest);
    if num > 0 {
        lemma_scale(num, den, p);
        let s = scale(num, den, p);
        lemma_half_even_range(
            scaled_num(num, s),
            scaled_den(den, s),
            pow2((p - 1) as nat),
            pow2(p),
        );
        lemma_pow2_pos((p - 1) as nat);
        lemma_pow2_strictly_increases((p - 1) as nat, p);
    }
}

/// The exponent of a quotient is that of the leading bits, but for a carry.
pub proof fn lemma_nearest_exponent(num: nat, den: nat, p: nat)
    requires
        num > 0,
    ensures
        bit_length(num) - bit_length(den) - p <= nearest(num, den, p).exp,
        nearest(num, den, p).exp <= bit_length(num) - bit_length(den) - p + 2,
{
    reveal(nearest);
}

/// The number of binary digits of a number between two powers of two.
pub proof fn lemma_length_between(n: nat, p: nat)
    requires
        p > 0,
        pow2((p - 1) as nat) <= n < pow2(p),
    ensures
        bit_length(n) == p,
{
    lemma_pow2_pos((p - 1) as nat);
    lemma_bit_length(n);
    lemma_bit_length_below(n, p);
    if bit_length(n) < p {
        if bit_length(n) < p - 1 {
            lemma_pow2_strictly_increases(bit_length(n), (p - 1) as nat);
        }
    }
}

/// The exponent of an integer is that of its leading bit, but for a carry.
pub proof fn lemma_of_int_exponent(n: nat, k: nat, p: nat)
    requires
        n < pow2(k),
    ensures
        of_int(n, p).exp <= (if k + 1 >= p { k + 1 - p } else { 0 }),
{
    reveal(nearest);
    lemma_bit_length_below(n, k);
    reveal_with_fuel(bit_length, 2);
}

/// `x * 2^k`.
pub fn doubled(x: u128, k: u32) -> (r: u128)
    requires
        x * pow2(k as nat) <= u128::MAX,
    ensures
        r == x * pow2(k as nat),
{
    let mut out: u128 = x;
    let mut i: u32 = 0;
    proof {
        lemma2_to64();
    }
    assert(x * pow2(0) == x) by (nonlinear_arith)
        requires
            pow2(0) == 1,
    ;
    while i < k
        invariant
            i <= k,
            out == x * pow2(i as nat),
            x * pow2(k as nat) <= u128::MAX,
        decreases k - i,
    {
        proof {
            lemma_pow2_unfold((i + 1) as nat);
            assert(x * pow2((i + 1) as nat) == 2 * (x * pow2(i as nat))) by (nonlinear_arith)
                requires
                    pow2((i + 1) as nat) == 2 * pow2(i as nat),
            ;
            if i + 1 < k {
                lemma_pow2_strictly_increases((i + 1) as nat, k as nat);
            }
            assert(x * pow2((i + 1) as nat) <= x * pow2(k as nat)) by (nonlinear_arith)
                requires
                    pow2((i + 1) as nat) <= pow2(k as nat),
            ;
        }
        out = out * 2;
        i += 1;
    }
    out
}

/// The number of binary digits.
fn bits_of(n: u128) -> (r: u32)
    ensures
        r == bit_length(n as nat),
        r <= 128,
{
    let mut m: u128 = n;
    let mut k: u32 = 0;
    proof {
        lemma_pow2_128();
        lemma_bit_length_below(n as nat, 128);
    }
    while m > 0
        invariant
            k + bit_length(m as nat) == bit_length(n as nat),
            bit_length(n as nat) <= 128,
        decreases m,
    {
        m = m / 2;
        k += 1;
    }
    k
}

pub proof fn lemma_pow2_128()
    ensures
        pow2(128) == 0x1_0000_0000_0000_0000_0000_0000_0000_0000int,
        pow2(127) * 2 == pow2(128),
        pow2(24) == 0x100_0000,
        pow2(23) == 0x80_0000,
        pow2(53) == 0x20_0000_0000_0000,
        pow2(52) == 0x10_0000_0000_0000,
        pow2(64) == 0x1_0000_0000_0000_0000int,
{
    lemma2_to64();
    vstd::arithmetic::power2::lemma2_to64_rest();
    lemma_pow2_adds(64, 64);
    lemma_pow2_unfold(128);
    assert(0x1_0000_0000_0000_0000int * 0x1_0000_0000_0000_0000int
        == 0x1_0000_0000_0000_0000_0000_0000_0000_0000int) by (nonlinear_arith);
}

/// The integer nearest to a quotient.
pub fn round_half_even(n: u128, d: u128) -> (r: u128)
    requires
        d > 0,
        half_even(n as nat, d as nat) <= u128::MAX,
    ensures
        r == half_even(n as nat, d as nat),
{
    let q: u128 = n / d;
    let r: u128 = n % d;
    if r < d - r || (r == d - r && q % 2 == 0) {
        q
    } else {
        q + 1
    }
}

/// A number of single or double precision.
#[derive(Clone, Copy)]
pub struct Soft {
    pub mant: u64,
    pub exp: i32,
}

impl View for Soft {
    type V = Float;

    open spec fn view(&self) -> Float {
        Float { mant: self.mant as nat, exp: self.exp as int }
    }
}

/// The absolute value.
pub open spec fn size(e: int) -> int {
    if e >= 0 {
        e
    } else {
        -e
    }
}

/// The exponents that the operations accept.
pub open spec fn small_exp(f: Float, bound: int) -> bool {
    -bound <= f.exp <= bound
}

/// The number of the given precision nearest to a quotient.
fn round(num: u128, den: u128, p: u32) -> (r: Soft)
    requires
        p == SINGLE || p == DOUBLE,
        num < pow2(120),
        0 < den < pow2(64),
    ensures
        r@ == nearest(num as nat, den as nat, p as nat),
        small_exp(r@, 200),
{
    reveal(nearest);
    if num == 0 {
        return Soft { mant: 0, exp: 0 };
    }
    let ln = bits_of(num);
    let ld = bits_of(den);
    let first: i32 = ln as i32 - ld as i32 - p as i32;
    proof {
        lemma_bit_length_below(num as nat, 120);
        lemma_bit_length_below(den as nat, 64);
        lemma_first_scale(num as nat, den as nat, p as nat);
        lemma_pow2_128();
        lemma_scaled_fit(num as nat, den as nat, p as nat, first as int);
    }
    let a0: u128 = if first < 0 {
        doubled(num, (-first) as u32)
    } else {
        num
    };
    let b0: u128 = if first < 0 {
        den
    } else {
        doubled(den, first as u32)
    };
    let full: u128 = doubled(1, p);
    assert(full == pow2(p as nat));
    let s: i32 = if a0 / b0 >= full {
        first + 1
    } else {
        first
    };
    assert(s == scale(num as nat, den as nat, p as nat));
    proof {
        lemma_scaled_fit(num as nat, den as nat, p as nat, s as int);
        lemma_scale(num as nat, den as nat, p as nat);
    }
    let a: u128 = if s < 0 {
        doubled(num, (-s) as u32)
    } else {
        num
    };
    let b: u128 = if s < 0 {
        den
    } else {
        doubled(den, s as u32)
    };
    proof {
        lemma_half_even_range(
            a as nat,
            b as nat,
            pow2((p - 1) as nat),
            pow2(p as nat),
        );
    }
    let m = round_half_even(a, b);
    if m == full {
        proof {
            lemma_pow2_unfold(p as nat);
        }
        Soft { mant: (full / 2) as u64, exp: s + 1 }
    } else {
        Soft { mant: m as u64, exp: s }
    }
}

/// The scaled numerator and denominator fit into 128 bits.
proof fn lemma_scaled_fit(num: nat, den: nat, p: nat, s: int)
    requires
        0 < num < pow2(120),
        0 < den < pow2(64),
        0 < p <= 53,
        ({
            let first = bit_length(num) - bit_length(den) - p;
            s == first || s == first + 1
        }),
    ensures
        scaled_num(num, s) < pow2(127),
        scaled_den(den, s) < pow2(127),
        pow2(127) < u128::MAX,
{
    lemma_bit_length(num);
    lemma_bit_length(den);
    lemma_bit_length_below(num, 120);
    lemma_bit_length_below(den, 64);
    lemma_pow2_128();
    if s < 0 {
        lemma_pow2_product(num, bit_length(num), (-s) as nat);
        let k = (bit_length(num) - s) as nat;
        assert(k <= 118);
        lemma_pow2_strictly_increases(k, 127);
        lemma_pow2_strictly_increases(64, 127);
    } else {
        lemma_pow2_product(den, bit_length(den), s as nat);
        let k = (bit_length(den) + s) as nat;
        assert(k <= 121);
        lemma_pow2_strictly_increases(k, 127);
        lemma_pow2_strictly_increases(120, 127);
    }
}

/// A number of `p` bits is its own rounding, also with less than half a unit added.
pub proof fn lemma_nearest_exact(m: nat, k: nat, x: nat, p: nat)
    requires
        p > 0,
        pow2((p - 1) as nat) <= m < pow2(p),
        2 * x < pow2(k),
    ensures
        nearest((m * pow2(k) + x) as nat, 1, p) == (Float { mant: m, exp: k as int }),
{
    reveal(nearest);
    let n = (m * pow2(k) + x) as nat;
    let top = (p + k) as nat;
    lemma_pow2_pos((p - 1) as nat);
    lemma_pow2_pos(k);
    lemma_pow2_product_low(m, (p - 1) as nat, k);
    assert((p - 1) as nat + k == (top - 1) as nat);
    assert(m * pow2(k) + pow2(k) <= pow2(p) * pow2(k)) by (nonlinear_arith)
        requires
            m + 1 <= pow2(p),
    ;
    lemma_pow2_adds(p, k);
    assert(pow2((top - 1) as nat) <= n < pow2(top));
    lemma_pow2_pos((top - 1) as nat);
    lemma_bit_length(n);
    lemma_bit_length_below(n, top);
    if bit_length(n) < top {
        if bit_length(n) < top - 1 {
            lemma_pow2_strictly_increases(bit_length(n), (top - 1) as nat);
        }
    }
    assert(bit_length(n) == top);
    assert(bit_length(1) == 1) by {
        assert(bit_length(0) == 0);
    }
    lemma2_to64();
    let first = bit_length(n) - bit_length(1) - p;
    assert(first == k - 1);
    let b0 = scaled_den(1, first);
    let a0 = scaled_num(n, first);
    if k == 0 {
        assert(a0 == n * pow2(1));
        assert(b0 == 1);
        assert(a0 / b0 == a0);
        lemma_pow2_unfold(p);
        assert(n * pow2(1) >= pow2(p)) by (nonlinear_arith)
            requires
                n >= pow2((p - 1) as nat),
                pow2(1) == 2,
                pow2(p) == 2 * pow2((p - 1) as nat),
        ;
    } else {
        let j = (k - 1) as nat;
        assert(b0 == pow2(j)) by {
            assert(1 * pow2(j) == pow2(j));
        }
        lemma_pow2_pos(j);
        lemma_pow2_adds(p, j);
        assert(p + j == (top - 1) as nat);
        vstd::arithmetic::div_mod::lemma_fundamental_div_mod(a0 as int, b0 as int);
        let q = a0 / b0;
        let r = a0 % b0;
        assert(q >= pow2(p)) by (nonlinear_arith)
            requires
                a0 >= pow2(p) * b0,
                a0 == b0 * q + r,
                r < b0,
                b0 > 0,
        ;
    }
    assert(scale(n, 1, p) == k);
    assert(scaled_num(n, k as int) == n);
    assert(scaled_den(1, k as int) == pow2(k)) by {
        assert(1 * pow2(k) == pow2(k));
    }
    vstd::arithmetic::div_mod::lemma_fundamental_div_mod_converse(
        n as int,
        pow2(k) as int,
        m as int,
        x as int,
    );
    assert(half_even(n, pow2(k)) == m);
}

/// A normal number is its own rounding.
pub proof fn lemma_nearest_self(f: Float, p: nat)
    requires
        p > 0,
        f.normal(p),
        f.mant > 0,
    ensures
        nearest(f.mant, 1, p) == (Float { mant: f.mant, exp: 0 }),
{
    lemma2_to64();
    lemma_nearest_exact(f.mant, 0, 0, p);
    assert(f.mant * pow2(0) + 0 == f.mant) by (nonlinear_arith)
        requires
            pow2(0) == 1,
    ;
}

/// The exponents of all numbers that the operations below may get.
pub const MAX_EXP: i32 = 100_000;

impl Soft {
    /// A normal number with an exponent that leaves room.
    pub open spec fn ready(self, p: u32, bound: int) -> bool {
        self@.normal(p as nat) && small_exp(self@, bound)
    }

    /// The number with another exponent; zero stays as it is.
    fn shift(self, e: i32) -> (r: Soft)
        requires
            i32::MIN <= self.exp + e <= i32::MAX,
        ensures
            r@ == self@.shifted(e as int),
    {
        if self.mant == 0 {
            self
        } else {
            Soft { mant: self.mant, exp: self.exp + e }
        }
    }

    /// An integer as a number of the given precision.
    pub fn of(n: u64, p: u32) -> (r: Soft)
        requires
            p == SINGLE || p == DOUBLE,
        ensures
            r@ == of_int(n as nat, p as nat),
            r.ready(p, 200),
            n > 0 ==> r.mant > 0,
    {
        proof {
            lemma_pow2_128();
            lemma_pow2_strictly_increases(64, 120);
            lemma_nearest_normal(n as nat, 1, p as nat);
        }
        round(n as u128, 1, p)
    }

    /// The quotient in the given precision.
    pub fn div(self, other: Soft, p: u32) -> (r: Soft)
        requires
            p == SINGLE || p == DOUBLE,
            self.ready(p, MAX_EXP as int),
            other.ready(p, MAX_EXP as int),
            other.mant > 0,
        ensures
            r@ == quotient(self@, other@, p as nat),
            r.ready(p, size(self.exp as int) + size(other.exp as int) + 200),
            self.mant > 0 ==> r.mant > 0,
    {
        proof {
            lemma_pow2_128();
            lemma_pow2_strictly_increases(64, 120);
            lemma_nearest_normal(self.mant as nat, other.mant as nat, p as nat);
        }
        let q = round(self.mant as u128, other.mant as u128, p);
        q.shift(self.exp - other.exp)
    }

    /// The product in the given precision.
    pub fn mul(self, other: Soft, p: u32) -> (r: Soft)
        requires
            p == SINGLE || p == DOUBLE,
            self.ready(p, MAX_EXP as int),
            other.ready(p, MAX_EXP as int),
        ensures
            r@ == product(self@, other@, p as nat),
            r.ready(p, size(self.exp as int) + size(other.exp as int) + 200),
    {
        proof {
            lemma_pow2_128();
            lemma_pow2_adds(53, 53);
            lemma_pow2_strictly_increases(106, 120);
            lemma_pow2_strictly_increases(24, 53);
            let x = self.mant as nat;
            let y = other.mant as nat;
            assert(x * y < pow2(53) * pow2(53)) by (nonlinear_arith)
                requires
                    x < pow2(53),
                    y < pow2(53),
            ;
            assert(pow2(106) <= u128::MAX) by {
                lemma_pow2_strictly_increases(106, 127);
            }
            lemma_nearest_normal(x * y, 1, p as nat);
        }
        let q = round(self.mant as u128 * other.mant as u128, 1, p);
        q.shift(self.exp + other.exp)
    }

    /// The sum in the given precision.
    pub fn plus(self, other: Soft, p: u32) -> (r: Soft)
        requires
            p == SINGLE || p == DOUBLE,
            self.ready(p, MAX_EXP as int),
            other.ready(p, MAX_EXP as int),
        ensures
            r@ == sum(self@, other@, p as nat),
            r.ready(p, size(self.exp as int) + size(other.exp as int) + 200),
            self.mant > 0 || other.mant > 0 ==> r.mant > 0,
    {
        if self.exp >= other.exp {
            Soft::plus_ordered(self, other, p)
        } else {
            Soft::plus_ordered(other, self, p)
        }
    }

    fn plus_ordered(hi: Soft, lo: Soft, p: u32) -> (r: Soft)
        requires
            p == SINGLE || p == DOUBLE,
            hi.ready(p, MAX_EXP as int),
            lo.ready(p, MAX_EXP as int),
            hi.exp >= lo.exp,
        ensures
            r@ == nearest(aligned(hi@, lo@), 1, p as nat).shifted(lo.exp as int),
            r.ready(p, size(hi.exp as int) + size(lo.exp as int) + 200),
            hi.mant > 0 || lo.mant > 0 ==> r.mant > 0,
    {
        let d: u32 = (hi.exp - lo.exp) as u32;
        let ghost k = d as nat;
        let ghost n = aligned(hi@, lo@);
        proof {
            lemma_pow2_128();
            lemma_pow2_strictly_increases(24, 53);
            lemma_pow2_pos(k);
            lemma_nearest_normal(n, 1, p as nat);
        }
        if hi.mant == 0 {
            assert(0 * pow2(k) == 0);
            if lo.mant == 0 {
                return Soft { mant: 0, exp: 0 };
            }
            proof {
                lemma_nearest_self(lo@, p as nat);
            }
            return lo;
        }
        if lo.mant == 0 || d > 60 {
            proof {
                if lo.mant > 0 {
                    lemma2_to64();
                    lemma_pow2_strictly_increases(60, k);
                    vstd::arithmetic::power2::lemma2_to64_rest();
                }
                lemma_nearest_exact(hi.mant as nat, k, lo.mant as nat, p as nat);
            }
            return hi;
        }
        proof {
            lemma_pow2_product(hi.mant as nat, 53, k);
            assert(53 + k <= 113);
            if 53 + k < 113 {
                lemma_pow2_strictly_increases(53 + k, 113);
            }
            lemma_pow2_strictly_increases(113, 119);
            lemma_pow2_strictly_increases(53, 119);
            lemma_pow2_unfold(120);
            assert(pow2(120) < u128::MAX) by {
                lemma_pow2_strictly_increases(120, 127);
            }
        }
        let total: u128 = doubled(hi.mant as u128, d) + lo.mant as u128;
        let q = round(total, 1, p);
        q.shift(lo.exp)
    }

    /// The number in single precision.
    pub fn to_single(self) -> (r: Soft)
        requires
            self.ready(DOUBLE, MAX_EXP as int),
        ensures
            r@ == reduced(self@, SINGLE as nat),
            r.ready(SINGLE, size(self.exp as int) + 200),
    {
        proof {
            lemma_pow2_128();
            lemma_pow2_strictly_increases(64, 120);
            lemma_nearest_normal(self.mant as nat, 1, 24);
        }
        let q = round(self.mant as u128, 1, SINGLE);
        q.shift(self.exp)
    }
}

}
