//! Human-readable byte sizes.
use vstd::prelude::*;
use crate::text::{decimal, two_digits, push_decimal, push_two_digits};

verus! {

pub const KILOBYTE: u64 = 1024;
pub const MEGABYTE: u64 = 1024 * 1024;
pub const GIGABYTE: u64 = 1024 * 1024 * 1024;

/// `n / unit` in hundredths, rounded to the nearest hundredth, ties to even.
pub open spec fn rounded_hundredths(n: nat, unit: nat) -> nat
    recommends
        unit > 0,
{
    let q = (100 * n) / unit;
    let r = (100 * n) % unit;
    if 2 * r > unit || (2 * r == unit && q % 2 == 1) {
        q + 1
    } else {
        q
    }
}

/// `n / unit` written with exactly two decimals.
pub open spec fn scaled_text(n: nat, unit: nat) -> Seq<char> {
    let h = rounded_hundredths(n, unit);
    decimal(h / 100) + seq!['.'] + two_digits(h % 100)
}

/// The rendering of a size in bytes: whole bytes below one kilobyte, else
/// kilobytes, megabytes or gigabytes (powers of 1024) with two decimals.
pub open spec fn size_text(size: nat) -> Seq<char> {
    if size < KILOBYTE {
        decimal(size) + seq![' ', 'B']
    } else if size < MEGABYTE {
        scaled_text(size, KILOBYTE as nat) + seq![' ', 'K', 'B']
    } else if size < GIGABYTE {
        scaled_text(size, MEGABYTE as nat) + seq![' ', 'M', 'B']
    } else {
        scaled_text(size, GIGABYTE as nat) + seq![' ', 'G', 'B']
    }
}

proof fn lemma_split_hundredths(n: nat, unit: nat)
    requires
        unit > 0,
    ensures
        (100 * n) / unit == 100 * (n / unit) + (100 * (n % unit)) / unit,
        (100 * n) % unit == (100 * (n % unit)) % unit,
{
    let q = n / unit;
    let r = n % unit;
    assert(n == q * unit + r) by (nonlinear_arith)
        requires q == n / unit, r == n % unit, unit > 0;
    assert(100 * n == (100 * q) * unit + 100 * r) by (nonlinear_arith)
        requires n == q * unit + r;
    let a = (100 * r) / unit;
    let b = (100 * r) % unit;
    assert(100 * r == a * unit + b) by (nonlinear_arith)
        requires a == (100 * r) / unit, b == (100 * r) % unit, unit > 0;
    assert((100 * n) as int == (100 * q + a) * unit + b) by (nonlinear_arith)
        requires 100 * n == (100 * q) * unit + 100 * r, 100 * r == a * unit + b;
    vstd::arithmetic::div_mod::lemma_fundamental_div_mod_converse(
        (100 * n) as int, unit as int, (100 * q + a) as int, b as int,
    );
}

fn push_scaled(out: &mut String, n: u64, unit: u64)
    requires
        unit == KILOBYTE || unit == MEGABYTE || unit == GIGABYTE,
    ensures
        final(out)@ == old(out)@ + scaled_text(n as nat, unit as nat),
{
    let q = n / unit;
    let r = n % unit;
    assert(100 * (r as int) < 100 * (unit as int));
    let scaled_r = 100 * r;
    let frac = scaled_r / unit;
    let rem = scaled_r % unit;
    proof {
        lemma_split_hundredths(n as nat, unit as nat);
        assert(frac < 100) by (nonlinear_arith)
            requires frac == scaled_r / unit, scaled_r < 100 * unit, unit > 0;
        assert(q <= u64::MAX / 1024);
    }
    let mut h: u64 = 100 * q + frac;
    if 2 * rem > unit || (2 * rem == unit && h % 2 == 1) {
        h = h + 1;
    }
    assert(h == rounded_hundredths(n as nat, unit as nat));
    push_decimal(out, h / 100);
    out.append(".");
    proof { reveal_strlit("."); }
    push_two_digits(out, h % 100);
}

/// Renders a size in bytes for display.
pub fn format_file_size(size: u64) -> (r: String)
    ensures
        r@ == size_text(size as nat),
{
    let mut out = String::new();
    if size < KILOBYTE {
        push_decimal(&mut out, size);
        out.append(" B");
        proof { reveal_strlit(" B"); }
    } else if size < MEGABYTE {
        push_scaled(&mut out, size, KILOBYTE);
        out.append(" KB");
        proof { reveal_strlit(" KB"); }
    } else if size < GIGABYTE {
        push_scaled(&mut out, size, MEGABYTE);
        out.append(" MB");
        proof { reveal_strlit(" MB"); }
    } else {
        push_scaled(&mut out, size, GIGABYTE);
        out.append(" GB");
        proof { reveal_strlit(" GB"); }
    }
    out
}

} // verus!
