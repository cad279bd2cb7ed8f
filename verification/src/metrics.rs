//! Metric records and the exact rendering of byte counts.

use vstd::prelude::*;
use vstd::string::*;
use vstd::arithmetic::power2::pow2;
use std::time::Duration;
use crate::decimal::{decimal, digit_char, u64_to_decimal};

verus! {

/// A snapshot of memory usage at a point in time.
#[derive(Debug, Clone, Copy)]
pub struct MemorySample {
    /// Microseconds since metrics collection started.
    pub offset_us: u128,
    /// Resident set size in kilobytes (from /proc/self/status VmRSS).
    pub rss_kb: usize,
}

/// Per-component timing record.
#[derive(Debug, Clone)]
pub struct ComponentTiming {
    pub name: String,
    pub init_duration: Duration,
    pub run_duration: Duration,
}

/// `n / d` rounded to the nearest integer, ties to the even neighbour.
pub open spec fn div_round_even(n: nat, d: nat) -> nat {
    let q = n / d;
    let r = n % d;
    if 2 * r > d || (2 * r == d && q % 2 == 1) { q + 1 } else { q }
}

/// The smallest shift `s` (from `s` upwards) after which `b / 2^s` has at
/// most 53 significant bits.
pub open spec fn f64_shift(b: nat, s: nat) -> nat
    decreases 64 - s,
{
    if s >= 64 || b / pow2(s) < 0x20_0000_0000_0000 {
        s
    } else {
        f64_shift(b, s + 1)
    }
}

/// The value of `b as f64`: `b` rounded to 53 significant bits, ties to even.
pub open spec fn as_f64_value(b: nat) -> nat {
    let u = pow2(f64_shift(b, 0));
    div_round_even(b, u) * u
}

/// A count of tenths written with one decimal place.
pub open spec fn one_decimal(tenths: nat) -> Seq<char> {
    decimal(tenths / 10) + seq!['.', digit_char(tenths % 10)]
}

/// How `format_bytes` writes a byte count: whole bytes below 1 KiB,
/// otherwise KiB, MiB or GiB with one decimal place, rounded to nearest
/// (ties to even) as `{:.1}` rounds the floating-point quotient.
pub open spec fn bytes_text(b: nat) -> Seq<char> {
    if b < 1024 {
        decimal(b) + seq![' ', 'B']
    } else if b < 1024 * 1024 {
        one_decimal(div_round_even(10 * b, 1024)) + seq![' ', 'K', 'B']
    } else if b < 1024 * 1024 * 1024 {
        one_decimal(div_round_even(10 * b, 1024 * 1024)) + seq![' ', 'M', 'B']
    } else {
        one_decimal(div_round_even(10 * as_f64_value(b), 1024 * 1024 * 1024)) + seq![' ', 'G', 'B']
    }
}

/// `n / d` rounded to nearest, ties to even.
fn div_round_even_exec(n: u128, d: u128) -> (r: u128)
    requires
        d > 0,
        d <= 0x1_0000_0000_0000_0000,
        n < 0x4000_0000_0000_0000_0000_0000_0000_0000u128,
    ensures
        r == div_round_even(n as nat, d as nat),
{
    let q = n / d;
    let r = n % d;
    if 2 * r > d || (2 * r == d && q % 2 == 1) {
        proof {
            assert(q <= n) by (nonlinear_arith)
                requires q == n / d, d > 0;
        }
        q + 1
    } else {
        q
    }
}

/// The value of `b as f64`, computed exactly with integers.
fn f64_value(b: u64) -> (r: u128)
    ensures
        r == as_f64_value(b as nat),
        r <= 0x1_0000_0000_0000_1000,
{
    let mut s: u32 = 0;
    let mut p: u128 = 1;
    proof {
        vstd::arithmetic::power2::lemma2_to64();
    }
    while (b as u128) / p >= 0x20_0000_0000_0000
        invariant
            s <= 12,
            p >= 1,
            p == pow2(s as nat),
            p <= 4096,
            f64_shift(b as nat, 0) == f64_shift(b as nat, s as nat),
        decreases 64 - s,
    {
        proof {
            let q = (b as u128) / p;
            assert(p <= 2048) by (nonlinear_arith)
                requires q == (b as u128) / p, q >= 0x20_0000_0000_0000, b < 0x1_0000_0000_0000_0000, p > 0;
            vstd::arithmetic::power2::lemma_pow2_unfold((s + 1) as nat);
            vstd::arithmetic::power2::lemma2_to64();
            if s > 11 {
                vstd::arithmetic::power2::lemma_pow2_strictly_increases(11, s as nat);
            }
        }
        s = s + 1;
        p = p * 2;
    }
    proof {
        vstd::arithmetic::power2::lemma_pow2_pos(s as nat);
        assert(f64_shift(b as nat, s as nat) == s);
    }
    let q = div_round_even_exec(b as u128, p);
    proof {
        let d = (b as nat) / (p as nat);
        assert(d * p <= b) by (nonlinear_arith)
            requires d == (b as nat) / (p as nat), p > 0;
        assert(q <= d + 1);
        assert(q * p <= d * p + p) by (nonlinear_arith)
            requires q <= d + 1, p > 0;
    }
    q * p
}

/// The text of a count of tenths with one decimal place.
fn one_decimal_text(tenths: u128) -> (r: String)
    requires
        tenths / 10 < 0x1_0000_0000_0000_0000,
    ensures
        r@ == one_decimal(tenths as nat),
{
    let mut text = u64_to_decimal((tenths / 10) as u64);
    proof {
        reveal_strlit(".");
    }
    text.append(".");
    let digit = u64_to_decimal((tenths % 10) as u64);
    proof {
        assert(decimal((tenths % 10) as nat) == seq![digit_char((tenths % 10) as nat)]);
    }
    text.append(digit.as_str());
    proof {
        assert(text@ =~= one_decimal(tenths as nat));
    }
    text
}

/// Format bytes as a human-readable string.
pub fn format_bytes(bytes: u64) -> (r: String)
    ensures
        r@ == bytes_text(bytes as nat),
{
    if bytes < 1024 {
        let mut text = u64_to_decimal(bytes);
        proof { reveal_strlit(" B"); }
        text.append(" B");
        text
    } else if bytes < 1024 * 1024 {
        let t = div_round_even_exec(10 * (bytes as u128), 1024);
        proof {
            assert(t <= 10 * 1024 * 1024) by (nonlinear_arith)
                requires t == div_round_even(10 * bytes as nat, 1024), bytes < 1024 * 1024;
        }
        let mut text = one_decimal_text(t);
        proof { reveal_strlit(" KB"); }
        text.append(" KB");
        text
    } else if bytes < 1024 * 1024 * 1024 {
        let t = div_round_even_exec(10 * (bytes as u128), 1024 * 1024);
        proof {
            assert(t <= 10 * 1024 * 1024) by (nonlinear_arith)
                requires t == div_round_even(10 * bytes as nat, 1024 * 1024), bytes < 1024 * 1024 * 1024;
        }
        let mut text = one_decimal_text(t);
        proof { reveal_strlit(" MB"); }
        text.append(" MB");
        text
    } else {
        let v = f64_value(bytes);
        let t = div_round_even_exec(10 * v, 1024 * 1024 * 1024);
        proof {
            assert(t <= 10 * 0x1_0000_0000_0000_0000) by (nonlinear_arith)
                requires t == div_round_even(10 * v as nat, 1024 * 1024 * 1024), v <= 0x1_0000_0000_0000_1000;
        }
        let mut text = one_decimal_text(t);
        proof { reveal_strlit(" GB"); }
        text.append(" GB");
        text
    }
}

} // verus!
