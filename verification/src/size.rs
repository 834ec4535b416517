//! Sizes as people write them.

use vstd::prelude::*;

use crate::text;
use crate::text::decimal_of;

verus! {

/// `n / d` to the nearest whole number; what lies halfway goes to the even one.
pub open spec fn nearest(n: nat, d: nat) -> nat {
    let q = n / d;
    let r = n % d;
    if 2 * r > d || (2 * r == d && q % 2 == 1) {
        q + 1
    } else {
        q
    }
}

/// How far apart the numbers are that 53 binary digits can tell apart, at `n`.
pub open spec fn spacing(n: nat, step: nat) -> nat
    decreases n - step,
{
    if step == 0 || n < step * 0x20_0000_0000_0000 {
        step
    } else {
        spacing(n, 2 * step)
    }
}

/// A count as it is held in 53 binary digits.
pub open spec fn held_as(n: nat) -> nat {
    nearest(n, spacing(n, 1)) * spacing(n, 1)
}

/// `1024` to the power of `i`, up to the fourth.
pub open spec fn power(i: nat) -> nat {
    if i == 0 {
        1
    } else if i == 1 {
        0x400
    } else if i == 2 {
        0x10_0000
    } else if i == 3 {
        0x4000_0000
    } else {
        0x100_0000_0000
    }
}

/// The largest unit, up to the fourth, of which there is at least one.
pub open spec fn unit(n: nat) -> nat {
    if n < power(1) {
        0
    } else if n < power(2) {
        1
    } else if n < power(3) {
        2
    } else if n < power(4) {
        3
    } else {
        4
    }
}

/// `n / p` with one digit behind the point.
pub open spec fn one_decimal(n: nat, p: nat) -> Seq<char> {
    let q = nearest(10 * n, p);
    text::decimal(q / 10) + "."@ + text::decimal(q % 10)
}

/// `n / p` with two digits behind the point.
pub open spec fn two_decimals(n: nat, p: nat) -> Seq<char> {
    let q = nearest(100 * n, p);
    text::decimal(q / 100) + "."@ + text::zero_padded(q % 100, 2)
}

/// The names of the units.
pub open spec fn short_unit(u: nat) -> Seq<char> {
    if u == 0 {
        " B"@
    } else if u == 1 {
        " KB"@
    } else if u == 2 {
        " MB"@
    } else if u == 3 {
        " GB"@
    } else {
        " TB"@
    }
}

/// The names of the units, in full.
pub open spec fn binary_unit(u: nat) -> Seq<char> {
    if u == 0 {
        " B"@
    } else if u == 1 {
        " KiB"@
    } else if u == 2 {
        " MiB"@
    } else if u == 3 {
        " GiB"@
    } else {
        " TiB"@
    }
}

/// A size as people write it.
pub open spec fn readable(bytes: nat) -> Seq<char> {
    let n = held_as(bytes);
    let u = unit(n);
    if u == 0 {
        text::decimal(bytes) + " B"@
    } else {
        one_decimal(n, power(u)) + short_unit(u)
    }
}

/// A size to two decimals.
pub open spec fn measured(bytes: nat) -> Seq<char> {
    let n = held_as(bytes);
    let u = unit(n);
    two_decimals(n, power(u)) + binary_unit(u)
}

pub fn nearest_of(n: u128, d: u128) -> (q: u128)
    requires
        0 < d <= 0x100_0000_0000,
        n <= 0x65_0000_0000_0000_0000,
    ensures
        q == nearest(n as nat, d as nat),
        q * d <= n + d,
        q <= n + 1,
{
    let q: u128 = n / d;
    let r: u128 = n % d;
    proof {
        vstd::arithmetic::div_mod::lemma_fundamental_div_mod(n as int, d as int);
        assert(q <= n) by (nonlinear_arith)
            requires
                n == d * q + r,
                d >= 1,
                q >= 0,
                r >= 0,
        ;
        assert((q + 1) * d == q * d + d) by (nonlinear_arith);
        assert(q * d == d * q) by (nonlinear_arith);
    }
    if 2 * r > d || (2 * r == d && q % 2 == 1) {
        q + 1
    } else {
        q
    }
}

pub fn held_of(bytes: u64) -> (n: u128)
    ensures
        n == held_as(bytes as nat),
        n <= 0x1_0000_0000_0000_0800,
        bytes < 0x20_0000_0000_0000 ==> n == bytes,
{
    let mut step: u128 = 1;
    while step < 0x800 && bytes as u128 >= step * 0x20_0000_0000_0000
        invariant
            1 <= step <= 0x800,
            spacing(bytes as nat, 1) == spacing(bytes as nat, step as nat),
            step > 1 ==> bytes >= 0x20_0000_0000_0000,
            step == 1 || step == 2 || step == 4 || step == 8 || step == 16 || step == 32 || step
                == 64 || step == 128 || step == 256 || step == 512 || step == 1024 || step == 2048,
        decreases 0x800 - step,
    {
        step = step * 2;
    }
    assert(bytes < step * 0x20_0000_0000_0000);
    let q: u128 = nearest_of(bytes as u128, step);
    assert(q * step <= bytes + step);
    q * step
}

pub fn unit_of(n: u128) -> (u: (u8, u128))
    ensures
        u.0 == unit(n as nat),
        u.1 == power(u.0 as nat),
        u.0 == 0 ==> n < 1024,
{
    if n < 0x400 {
        (0, 1)
    } else if n < 0x10_0000 {
        (1, 0x400)
    } else if n < 0x4000_0000 {
        (2, 0x10_0000)
    } else if n < 0x100_0000_0000 {
        (3, 0x4000_0000)
    } else {
        (4, 0x100_0000_0000)
    }
}

/// What is left of a count when it is divided.
pub proof fn small_enough(q: int, p: int, n: int)
    requires
        q * p <= n + p,
        n <= 0x65_0000_0000_0000_0000,
        p >= 1024,
        q >= 0,
    ensures
        q <= 0xffff_ffff_ffff_ffff,
{
    if q > 0xffff_ffff_ffff_ffff {
        assert((q - 1) * p >= 0xffff_ffff_ffff_ffff * 1024) by (nonlinear_arith)
            requires
                q - 1 >= 0xffff_ffff_ffff_ffff,
                p >= 1024,
        ;
        assert((q - 1) * p == q * p - p) by (nonlinear_arith);
    }
}

/// A size as people write it: a whole number of bytes, or one decimal of the
/// largest unit of which there is at least one.
pub fn human(bytes: u64) -> (text: String)
    ensures
        text@ == readable(bytes as nat),
{
    let n: u128 = held_of(bytes);
    let (u, p): (u8, u128) = unit_of(n);
    if u == 0 {
        return decimal_of(bytes).concat(" B");
    }
    let q: u128 = nearest_of(10 * n, p);
    proof {
        small_enough(q as int, p as int, 10 * n as int);
    }
    let number: String = decimal_of((q / 10) as u64).concat(".").concat(
        &decimal_of((q % 10) as u64),
    );
    if u == 1 {
        number.concat(" KB")
    } else if u == 2 {
        number.concat(" MB")
    } else if u == 3 {
        number.concat(" GB")
    } else {
        number.concat(" TB")
    }
}

/// What a number is rounded to lies nearest to it, and of two that lie equally near
/// it is the even one.
pub proof fn law_rounding_is_to_the_nearest(n: nat, d: nat)
    requires
        d > 0,
    ensures
        2 * n <= 2 * (nearest(n, d) * d) + d,
        2 * (nearest(n, d) * d) <= 2 * n + d,
        2 * n == 2 * (nearest(n, d) * d) + d || 2 * (nearest(n, d) * d) == 2 * n + d ==> nearest(
            n,
            d,
        ) % 2 == 0,
{
    let q = n / d;
    let r = n % d;
    assert(n == q * d + r && 0 <= r < d) by (nonlinear_arith)
        requires
            d > 0,
            q == n / d,
            r == n % d,
    ;
    assert((q + 1) * d == q * d + d) by (nonlinear_arith);
}

/// Each unit is a thousand and twenty-four of the one below it, and the one that a
/// size is told in is the largest that it fills, as far as they go.
pub proof fn law_the_unit_is_the_largest_that_is_filled(n: nat)
    ensures
        unit(n) <= 4,
        unit(n) > 0 ==> power(unit(n)) <= n,
        unit(n) < 4 ==> n < 1024 * power(unit(n)),
        power(0) == 1,
        forall|u: nat| u < 4 ==> #[trigger] power(u + 1) == 1024 * power(u),
{
}

/// A size below the first unit is told exactly, in bytes. A larger one is told in its
/// unit to one decimal: the tenths are the nearest to it.
pub proof fn law_a_size_is_told_in_its_unit(bytes: nat)
    requires
        bytes < 0x20_0000_0000_0000,
    ensures
        held_as(bytes) == bytes,
        bytes < 1024 ==> readable(bytes) == text::decimal(bytes) + " B"@,
        1024 <= bytes ==> exists|tenths: nat|
            #![trigger text::decimal(tenths / 10)]
            2 * (10 * bytes) <= 2 * (tenths * power(unit(bytes))) + power(unit(bytes)) && 2 * (
            tenths * power(unit(bytes))) <= 2 * (10 * bytes) + power(unit(bytes)) && readable(bytes)
                == text::decimal(tenths / 10) + "."@ + text::decimal(tenths % 10) + (if bytes
                < 0x10_0000 {
                " KB"@
            } else if bytes < 0x4000_0000 {
                " MB"@
            } else if bytes < 0x100_0000_0000 {
                " GB"@
            } else {
                " TB"@
            }),
{
    assert(spacing(bytes, 1) == 1);
    assert(nearest(bytes, 1) == bytes) by {
        law_rounding_is_to_the_nearest(bytes, 1);
        assert(bytes / 1 == bytes && bytes % 1 == 0);
    }
    let p = power(unit(bytes));
    let q = nearest(10 * bytes, p);
    law_rounding_is_to_the_nearest(10 * bytes, p);
    if 1024 <= bytes {
        assert(readable(bytes) == text::decimal(q / 10) + "."@ + text::decimal(q % 10)
            + short_unit(unit(bytes)));
    }
}

/// A measured size is told in its unit to two decimals: the hundredths are the nearest
/// to it.
pub proof fn law_a_size_is_measured_to_two_decimals(bytes: nat)
    requires
        bytes < 0x20_0000_0000_0000,
    ensures
        exists|hundredths: nat|
            #![trigger text::decimal(hundredths / 100)]
            2 * (100 * bytes) <= 2 * (hundredths * power(unit(bytes))) + power(unit(bytes)) && 2 * (
            hundredths * power(unit(bytes))) <= 2 * (100 * bytes) + power(unit(bytes)) && measured(
                bytes,
            ) == text::decimal(hundredths / 100) + "."@ + text::zero_padded(hundredths % 100, 2) + (
            if bytes < 0x400 {
                " B"@
            } else if bytes < 0x10_0000 {
                " KiB"@
            } else if bytes < 0x4000_0000 {
                " MiB"@
            } else if bytes < 0x100_0000_0000 {
                " GiB"@
            } else {
                " TiB"@
            }),
{
    law_a_size_is_told_in_its_unit(bytes);
    let p = power(unit(bytes));
    let q = nearest(100 * bytes, p);
    law_rounding_is_to_the_nearest(100 * bytes, p);
    assert(measured(bytes) == text::decimal(q / 100) + "."@ + text::zero_padded(q % 100, 2)
        + binary_unit(unit(bytes)));
}

} // verus!
