//! How sizes are shown.

use vstd::arithmetic::power2::pow2;
use vstd::prelude::*;

use crate::text::{decimal, digit_char};
use crate::units::{bytes_text, excess_bits, hundredths_text, nearest_even, unit_name, Double};

verus! {

/// Division rounds to the nearest number, and to the even one of two that are as near.
pub proof fn law_division_rounds_to_the_nearest(n: nat, d: nat)
    requires
        d > 0,
    ensures
        2 * (nearest_even(n, d) * d - n) <= d,
        2 * (n - nearest_even(n, d) * d) <= d,
        2 * (nearest_even(n, d) * d - n) == d || 2 * (n - nearest_even(n, d) * d) == d
            ==> nearest_even(n, d) % 2 == 0,
{
    let q = n / d;
    let r = n % d;
    assert(n == q * d + r) by {
        vstd::arithmetic::div_mod::lemma_fundamental_div_mod(n as int, d as int);
        vstd::arithmetic::mul::lemma_mul_is_commutative(d as int, q as int);
    }
    assert((q + 1) * d == q * d + d) by (nonlinear_arith);
    assert(0 <= r < d);
}

/// Fewer than a thousand bytes are counted.
pub proof fn law_few_bytes_are_counted(bytes: nat)
    requires
        bytes < 1000,
    ensures
        bytes_text(bytes) == decimal(bytes) + " B"@,
{
    reveal_strlit("B");
    reveal_strlit(" B");
    assert(decimal(bytes).push(' ') + "B"@ == decimal(bytes) + " B"@);
}

/// The units go up by thousands.
pub proof fn law_units()
    ensures
        unit_name(0) == "B"@,
        unit_name(1) == "KB"@,
        unit_name(2) == "MB"@,
        unit_name(3) == "GB"@,
        unit_name(4) == "TB"@,
{
}

/// A size is divided by a thousand as long as it is a thousand or more and there is a larger
/// unit, and each division goes one unit up.
pub proof fn law_sizes_are_divided(value: Double, unit: nat)
    requires
        unit <= 4,
    ensures
        value.thousands() && unit < 4 ==> value.reduced(unit) == value.thousandth().reduced(
            unit + 1,
        ),
        !value.thousands() || unit == 4 ==> value.reduced(unit) == (value, unit),
        value.exponent >= 0 ==> (value.thousands() <==> value.significand * pow2(
            value.exponent as nat,
        ) >= 1000),
        value.exponent < 0 ==> (value.thousands() <==> value.significand >= 1000 * pow2(
            (-value.exponent) as nat,
        )),
{
}

/// What is shown is the divided size, with at most two decimal places and its unit.
pub proof fn law_sizes_are_shown(bytes: nat)
    requires
        bytes >= 1000,
    ensures
        ({
            let (value, unit) = Double::of(bytes).reduced(0);
            bytes_text(bytes) == hundredths_text(value.hundredths()) + seq![' '] + unit_name(unit)
        }),
{
    let (value, unit) = Double::of(bytes).reduced(0);
    let text = hundredths_text(value.hundredths());
    assert(text.push(' ') + unit_name(unit) == text + seq![' '] + unit_name(unit));
}

/// Decimal places are shown up to the last that is not zero.
pub proof fn law_decimal_places(whole: nat, tenths: nat, last: nat)
    requires
        tenths < 10,
        last < 10,
    ensures
        last == 0 && tenths == 0 ==> hundredths_text(100 * whole + 10 * tenths + last) == decimal(
            whole,
        ),
        last == 0 && tenths > 0 ==> hundredths_text(100 * whole + 10 * tenths + last) == decimal(
            whole,
        ).push('.').push(digit_char(tenths)),
        last > 0 ==> hundredths_text(100 * whole + 10 * tenths + last) == decimal(whole).push(
            '.',
        ).push(digit_char(tenths)).push(digit_char(last)),
{
    let h = 100 * whole + 10 * tenths + last;
    assert(h / 100 == whole);
    assert(h / 10 % 10 == tenths);
    assert(h % 10 == last);
}

/// Two decimal places are the nearest number of hundredths.
pub proof fn law_hundredths(value: Double)
    ensures
        value.exponent >= 0 ==> value.hundredths() == 100 * value.significand * pow2(
            value.exponent as nat,
        ),
        value.exponent < 0 ==> value.hundredths() == nearest_even(
            100 * value.significand,
            pow2((-value.exponent) as nat),
        ),
{
}

/// A size below two to the fifty-third is taken as it is.
pub proof fn law_small_sizes_are_exact(n: nat)
    requires
        0 < n < 0x20_0000_0000_0000,
    ensures
        Double::of(n).exponent <= 0,
        Double::of(n).significand == n * pow2((-Double::of(n).exponent) as nat),
        0x10_0000_0000_0000 <= Double::of(n).significand < 0x20_0000_0000_0000,
{
    assert(excess_bits(n) == 0);
    lemma_normal(Double { significand: n, exponent: 0 });
}

proof fn lemma_normal(d: Double)
    requires
        0 < d.significand < 0x20_0000_0000_0000,
        d.exponent <= 0,
    ensures
        d.normal().exponent <= d.exponent,
        d.normal().significand == d.significand * pow2((d.exponent - d.normal().exponent) as nat),
        0x10_0000_0000_0000 <= d.normal().significand < 0x20_0000_0000_0000,
    decreases 0x20_0000_0000_0000 - d.significand,
{
    vstd::arithmetic::power2::lemma2_to64();
    if d.significand < 0x10_0000_0000_0000 {
        let next = Double { significand: d.significand * 2, exponent: d.exponent - 1 };
        lemma_normal(next);
        assert(d.normal() == next.normal());
        let k = (next.exponent - next.normal().exponent) as nat;
        assert((d.exponent - d.normal().exponent) as nat == k + 1);
        vstd::arithmetic::power2::lemma_pow2_unfold(k + 1);
        let s = d.significand;
        let p = pow2(k);
        assert((s * 2) * p == s * (2 * p)) by (nonlinear_arith);
        assert(next.normal().significand == (s * 2) * p);
        assert(pow2(k + 1) == 2 * p);
    } else {
        assert(d.normal() == d);
        assert((d.exponent - d.normal().exponent) as nat == 0);
        assert(pow2(0) == 1);
        assert(d.significand * pow2(0) == d.significand);
    }
}

/// A larger size loses as many bits as it has beyond fifty-three, rounded to the nearest.
pub proof fn law_large_sizes_are_rounded(n: nat, bits: nat)
    requires
        n >= 0x20_0000_0000_0000,
        bits == excess_bits(n),
    ensures
        nearest_even(n, pow2(bits)) != 0x20_0000_0000_0000 ==> Double::of(n) == (Double {
            significand: nearest_even(n, pow2(bits)),
            exponent: bits as int,
        }),
        nearest_even(n, pow2(bits)) == 0x20_0000_0000_0000 ==> Double::of(n) == (Double {
            significand: 0x10_0000_0000_0000,
            exponent: bits as int + 1,
        }),
        excess_bits(n) == 1 + excess_bits(n / 2),
        forall|m: nat| m < 0x20_0000_0000_0000 ==> #[trigger] excess_bits(m) == 0,
{
}

/// A thousandth is the nearest number of fifty-three bits.
pub proof fn law_thousandth_is_rounded(value: Double)
    ensures
        ({
            let shift: nat = if value.significand * 512 >= 1000 * 0x10_0000_0000_0000 {
                9
            } else {
                10
            };
            let rounded = nearest_even(value.significand * pow2(shift), 1000);
            &&& rounded != 0x20_0000_0000_0000 ==> value.thousandth() == (Double {
                significand: rounded,
                exponent: value.exponent - shift,
            })
            &&& rounded == 0x20_0000_0000_0000 ==> value.thousandth() == (Double {
                significand: 0x10_0000_0000_0000,
                exponent: value.exponent - shift + 1,
            })
        }),
{
}

} // verus!
