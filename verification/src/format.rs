//! Numbers in the form in which they are shown.

use vstd::prelude::*;
use vstd::arithmetic::power2::{
    lemma2_to64, lemma_pow2_adds, lemma_pow2_pos, lemma_pow2_strictly_increases, pow2,
};
use crate::float::{
    doubled, half_even, lemma_of_int_exponent, lemma_pow2_128, of_int, round_half_even, Float,
    Soft, DOUBLE,
};
use crate::number::{decimal, decimal_text};
use crate::rate::{lemma_packed_unpacked, Rate, INFINITE};
use crate::text::concat;

verus! {

/// The bits of 0.1, the least rate that is shown.
pub const TENTH: u32 = 0x3dcc_cccd;

/// The bits of 2^10.
pub const KIBI: u32 = 0x4480_0000;

/// The bits of 2^20.
pub const MEBI: u32 = 0x4980_0000;

/// The bits of 2^30.
pub const GIBI: u32 = 0x4e80_0000;

/// The number in parts of which `parts` make one, rounded to an integer.
pub open spec fn counted(f: Float, parts: nat) -> nat {
    let whole = f.mant * parts;
    if f.exp >= 0 {
        whole * pow2(f.exp as nat)
    } else {
        half_even(whole, pow2((-f.exp) as nat))
    }
}

/// A number in decimal, rounded to an integer or to one digit after the point.
pub open spec fn fixed(f: Float, tenths: bool) -> Seq<char> {
    if tenths {
        let n = counted(f, 10);
        decimal(n / 10) + "."@ + decimal(n % 10)
    } else {
        decimal(counted(f, 1))
    }
}

/// A rate over `2^halvings` in decimal.
pub open spec fn rate_number(r: Rate, halvings: nat, tenths: bool) -> Seq<char> {
    if r.pending() {
        "NaN"@
    } else if r.bits == INFINITE {
        "inf"@
    } else {
        fixed(r.value().shifted(-(halvings as int)), tenths)
    }
}

/// A number of bytes over `2^halvings` in decimal.
pub open spec fn bytes_number(bytes: u64, halvings: nat, tenths: bool) -> Seq<char> {
    fixed(of_int(bytes as nat, DOUBLE as nat).shifted(-(halvings as int)), tenths)
}

/// An amount of memory with its unit.
pub open spec fn bytes_shown(bytes: u64) -> Seq<char> {
    if bytes >= 0x4000_0000 {
        bytes_number(bytes, 30, true) + "Gi"@
    } else if bytes >= 0x10_0000 {
        bytes_number(bytes, 20, true) + "Mi"@
    } else if bytes >= 0x400 {
        bytes_number(bytes, 10, false) + "Ki"@
    } else {
        decimal(bytes as nat) + "B"@
    }
}

/// A share of a processor: a dash where there is no baseline yet.
pub open spec fn cpu_shown(r: Rate) -> Seq<char> {
    if r.pending() {
        "-"@
    } else {
        rate_number(r, 0, true)
    }
}

/// A rate of bytes per second: a dash where there is no baseline yet or almost nothing.
pub open spec fn rate_shown(r: Rate) -> Seq<char> {
    if r.pending() || r.bits < TENTH {
        "-"@
    } else if r.bits >= GIBI {
        rate_number(r, 30, true) + "Gi"@
    } else if r.bits >= MEBI {
        rate_number(r, 20, true) + "Mi"@
    } else if r.bits >= KIBI {
        rate_number(r, 10, false) + "Ki"@
    } else {
        rate_number(r, 0, false) + "B"@
    }
}

/// The rate at which data arrives.
pub open spec fn data_rate_shown(r: Rate) -> Seq<char> {
    if !r.pending() && r.bits >= MEBI {
        rate_number(r, 20, true) + "Mi/s"@
    } else if !r.pending() && r.bits >= KIBI {
        rate_number(r, 10, true) + "Ki/s"@
    } else {
        rate_number(r, 0, false) + "B/s"@
    }
}

/// A number of at least three bits below the half of a power of two rounds to nothing.
proof fn lemma_counted_tiny(whole: nat, k: nat)
    requires
        whole < pow2(62),
        k >= 64,
    ensures
        half_even(whole, pow2(k)) == 0,
{
    lemma2_to64();
    vstd::arithmetic::power2::lemma2_to64_rest();
    if k > 64 {
        lemma_pow2_strictly_increases(64, k);
    }
    let d = pow2(k);
    vstd::arithmetic::div_mod::lemma_fundamental_div_mod_converse(
        whole as int,
        d as int,
        0,
        whole as int,
    );
}

fn count(x: Soft, parts: u64) -> (r: u128)
    requires
        parts == 1 || parts == 10,
        x.mant < pow2(58),
        x.exp < 0,
        x.exp >= -1_000_000,
    ensures
        r == counted(x@, parts as nat),
{
    let whole: u128 = x.mant as u128 * parts as u128;
    proof {
        lemma2_to64();
        vstd::arithmetic::power2::lemma2_to64_rest();
        assert(whole == x.mant * parts && whole <= 10 * x.mant) by (nonlinear_arith)
            requires
                whole == x.mant * parts,
                parts == 1 || parts == 10,
        ;
    }
    let k: u32 = (-x.exp) as u32;
    if k >= 64 {
        proof {
            lemma_counted_tiny(whole as nat, k as nat);
        }
        0
    } else {
        proof {
            lemma_pow2_strictly_increases(k as nat, 64);
            lemma_pow2_pos(k as nat);
            let d = pow2(k as nat);
            let q = whole as nat / d;
            assert(q <= whole) by (nonlinear_arith)
                requires
                    q == whole as nat / d,
                    d > 0,
            ;
        }
        let d: u128 = doubled(1, k);
        round_half_even(whole, d)
    }
}

/// Writes a number in decimal.
pub fn fixed_text(x: Soft, tenths: bool) -> (r: String)
    requires
        x.mant < pow2(58),
        x.exp >= -1_000_000,
        x.exp >= 0 ==> x.mant * pow2(x.exp as nat) <= u128::MAX,
    ensures
        r@ == fixed(x@, tenths),
{
    if x.exp >= 0 {
        let n: u128 = doubled(x.mant as u128, x.exp as u32);
        let whole = decimal_text(n);
        proof {
            let m = x.mant as nat;
            let p = pow2(x.exp as nat);
            assert(m * 1 * p == m * p) by (nonlinear_arith);
            assert(m * 10 * p == 10 * (m * p)) by (nonlinear_arith);
        }
        if tenths {
            let zero = decimal_text(0);
            concat(concat(whole.as_str(), ".").as_str(), zero.as_str())
        } else {
            whole
        }
    } else if tenths {
        let n: u128 = count(x, 10);
        let whole = decimal_text(n / 10);
        let part = decimal_text(n % 10);
        concat(concat(whole.as_str(), ".").as_str(), part.as_str())
    } else {
        let n: u128 = count(x, 1);
        decimal_text(n)
    }
}

/// Writes a rate over `2^halvings` in decimal.
pub fn rate_text(r: Rate, halvings: u32, tenths: bool) -> (s: String)
    requires
        halvings <= 30,
    ensures
        s@ == rate_number(r, halvings as nat, tenths),
{
    if r.is_pending() {
        return "NaN".to_string();
    }
    if r.bits == INFINITE {
        return "inf".to_string();
    }
    let f = r.soft();
    proof {
        lemma_packed_unpacked(r.bits);
        lemma_pow2_128();
        lemma2_to64();
        vstd::arithmetic::power2::lemma2_to64_rest();
    }
    let x = if f.mant == 0 {
        f
    } else {
        Soft { mant: f.mant, exp: f.exp - halvings as i32 }
    };
    assert(x@ == r.value().shifted(-(halvings as int)));
    proof {
        if x.exp >= 0 {
            assert(x.mant < pow2(24));
            if x.exp < 104 {
                lemma_pow2_strictly_increases(x.exp as nat, 104);
            }
            lemma_pow2_adds(24, 104);
            lemma_pow2_pos(x.exp as nat);
            let p = pow2(x.exp as nat);
            let m = x.mant as nat;
            assert(m * p <= pow2(24) * pow2(104) - 1) by (nonlinear_arith)
                requires
                    m < pow2(24),
                    0 < p <= pow2(104),
            ;
        }
    }
    fixed_text(x, tenths)
}

/// Writes a number of bytes over `2^halvings` in decimal.
pub fn bytes_text(bytes: u64, halvings: u32, tenths: bool) -> (s: String)
    requires
        halvings <= 30,
    ensures
        s@ == bytes_number(bytes, halvings as nat, tenths),
{
    let f = Soft::of(bytes, DOUBLE);
    proof {
        lemma_pow2_128();
        lemma2_to64();
        vstd::arithmetic::power2::lemma2_to64_rest();
        lemma_of_int_exponent(bytes as nat, 64, 53);
    }
    let x = if f.mant == 0 {
        f
    } else {
        Soft { mant: f.mant, exp: f.exp - halvings as i32 }
    };
    proof {
        if x.exp >= 0 {
            if x.exp < 12 {
                lemma_pow2_strictly_increases(x.exp as nat, 12);
            }
            lemma_pow2_pos(x.exp as nat);
            let p = pow2(x.exp as nat);
            let m = x.mant as nat;
            assert(m * p <= 0x20_0000_0000_0000 * 4096) by (nonlinear_arith)
                requires
                    m < 0x20_0000_0000_0000,
                    0 < p <= 4096,
            ;
        }
    }
    fixed_text(x, tenths)
}

/// Format an amount of memory with a binary suffix
pub fn format_bytes(bytes: u64) -> (s: String)
    ensures
        s@ == bytes_shown(bytes),
{
    if bytes >= 0x4000_0000 {
        concat(bytes_text(bytes, 30, true).as_str(), "Gi")
    } else if bytes >= 0x10_0000 {
        concat(bytes_text(bytes, 20, true).as_str(), "Mi")
    } else if bytes >= 0x400 {
        concat(bytes_text(bytes, 10, false).as_str(), "Ki")
    } else {
        concat(decimal_text(bytes as u128).as_str(), "B")
    }
}

/// Format CPU percentage, showing "-" for pending values
pub fn format_cpu(cpu_percent: Rate) -> (s: String)
    ensures
        s@ == cpu_shown(cpu_percent),
{
    if cpu_percent.is_pending() {
        "-".to_string()
    } else {
        rate_text(cpu_percent, 0, true)
    }
}

/// Format I/O rate (bytes/sec) with human-readable suffix
pub fn format_rate(rate: Rate) -> (s: String)
    ensures
        s@ == rate_shown(rate),
{
    if rate.is_pending() || rate.bits < TENTH {
        "-".to_string()
    } else if rate.bits >= GIBI {
        concat(rate_text(rate, 30, true).as_str(), "Gi")
    } else if rate.bits >= MEBI {
        concat(rate_text(rate, 20, true).as_str(), "Mi")
    } else if rate.bits >= KIBI {
        concat(rate_text(rate, 10, false).as_str(), "Ki")
    } else {
        concat(rate_text(rate, 0, false).as_str(), "B")
    }
}

/// Format the rate at which data arrives
pub fn format_data_rate(rate: Rate) -> (s: String)
    ensures
        s@ == data_rate_shown(rate),
{
    if !rate.is_pending() && rate.bits >= MEBI {
        concat(rate_text(rate, 20, true).as_str(), "Mi/s")
    } else if !rate.is_pending() && rate.bits >= KIBI {
        concat(rate_text(rate, 10, true).as_str(), "Ki/s")
    } else {
        concat(rate_text(rate, 0, false).as_str(), "B/s")
    }
}

/// A rate without a baseline is shown as a dash, and so is a rate of almost nothing.
pub proof fn pending_is_shown_as_dash(r: Rate)
    ensures
        r.pending() ==> cpu_shown(r) == "-"@ && rate_shown(r) == "-"@,
        r.bits < TENTH ==> rate_shown(r) == "-"@,
{
}

/// The unit of a rate at which data comes goes by its size: bytes below a Ki, then Ki, then Mi, the
/// latter two with a digit behind the point.
pub proof fn data_rates_have_their_units(r: Rate)
    requires
        !r.pending(),
    ensures
        r.bits < 0x4480_0000 ==> data_rate_shown(r) == rate_number(r, 0, false) + "B/s"@,
        0x4480_0000 <= r.bits < 0x4980_0000 ==> data_rate_shown(r) == rate_number(r, 10, true)
            + "Ki/s"@,
        0x4980_0000 <= r.bits ==> data_rate_shown(r) == rate_number(r, 20, true) + "Mi/s"@,
{
}

}
