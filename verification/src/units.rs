//! Byte counts for people, in decimal units.
//!
//! The quotient is the one that double precision gives: a significand of 53
//! bits, rounded to nearest with ties to even after every division by 1000. The
//! two decimals are rounded from that quotient, not from the exact one.

use vstd::arithmetic::power2::{lemma_pow2_strictly_increases, lemma_pow2_unfold, pow2};
use vstd::prelude::*;
use vstd::string::StringExecFns;

use crate::text::{decimal, decimal_text, digit, digit_char};

verus! {

/// Two to the power 52, the least normal significand.
pub const SIGNIFICAND_MIN: u64 = 0x10_0000_0000_0000;

/// Two to the power 53, above every significand.
pub const SIGNIFICAND_END: u64 = 0x20_0000_0000_0000;

/// `n / d` rounded to the nearest integer, ties to the even one.
pub open spec fn nearest_even(n: nat, d: nat) -> nat {
    let q = n / d;
    let r = n % d;
    if 2 * r < d || (2 * r == d && q % 2 == 0) {
        q
    } else {
        q + 1
    }
}

/// A positive number of double precision: `significand * 2^exponent`.
pub ghost struct Double {
    pub significand: nat,
    pub exponent: int,
}

impl Double {
    /// The number with this significand, which may have been rounded up to
    /// `SIGNIFICAND_END`.
    pub open spec fn carried(significand: nat, exponent: int) -> Double {
        if significand == SIGNIFICAND_END {
            Double { significand: SIGNIFICAND_MIN as nat, exponent: exponent + 1 }
        } else {
            Double { significand, exponent }
        }
    }

    /// The number scaled up until its significand is normal.
    pub open spec fn normal(self) -> Double
        decreases SIGNIFICAND_END - self.significand,
    {
        if 0 < self.significand < SIGNIFICAND_MIN {
            Double { significand: self.significand * 2, exponent: self.exponent - 1 }.normal()
        } else {
            self
        }
    }

    /// The double nearest to a whole number.
    pub open spec fn of(n: nat) -> Double {
        let drop = excess_bits(n);
        if drop == 0 {
            Double { significand: n, exponent: 0 }.normal()
        } else {
            Double::carried(nearest_even(n, pow2(drop)), drop as int)
        }
    }

    /// The double nearest to a thousandth of this one.
    pub open spec fn thousandth(self) -> Double {
        let shift: nat = if self.significand * 512 >= 1000 * SIGNIFICAND_MIN {
            9
        } else {
            10
        };
        Double::carried(
            nearest_even(self.significand * pow2(shift), 1000),
            self.exponent - shift,
        )
    }

    /// Whether the number is 1000 or more.
    pub open spec fn thousands(self) -> bool {
        if self.exponent >= 0 {
            self.significand * pow2(self.exponent as nat) >= 1000
        } else {
            self.significand >= 1000 * pow2((-self.exponent) as nat)
        }
    }

    /// The number of hundredths nearest to this number, ties to even.
    pub open spec fn hundredths(self) -> nat {
        if self.exponent >= 0 {
            100 * self.significand * pow2(self.exponent as nat)
        } else {
            nearest_even(100 * self.significand, pow2((-self.exponent) as nat))
        }
    }

    /// Divides by 1000 while the number is 1000 or more and a larger unit is
    /// left; gives the quotient and the unit.
    pub open spec fn reduced(self, unit: nat) -> (Double, nat)
        decreases 4 - unit,
    {
        if self.thousands() && unit < 4 {
            self.thousandth().reduced(unit + 1)
        } else {
            (self, unit)
        }
    }
}

/// How many low bits of a number do not fit a significand.
pub open spec fn excess_bits(n: nat) -> nat
    decreases n,
{
    if n < SIGNIFICAND_END {
        0
    } else {
        1 + excess_bits(n / 2)
    }
}

/// The name of a unit.
pub open spec fn unit_name(unit: nat) -> Seq<char> {
    if unit == 0 {
        "B"@
    } else if unit == 1 {
        "KB"@
    } else if unit == 2 {
        "MB"@
    } else if unit == 3 {
        "GB"@
    } else {
        "TB"@
    }
}

/// A number of hundredths in decimal, without trailing zeros.
pub open spec fn hundredths_text(h: nat) -> Seq<char> {
    let whole = decimal(h / 100);
    let tenths = h / 10 % 10;
    let last = h % 10;
    if tenths == 0 && last == 0 {
        whole
    } else if last == 0 {
        whole.push('.').push(digit_char(tenths))
    } else {
        whole.push('.').push(digit_char(tenths)).push(digit_char(last))
    }
}

/// A byte count in the largest unit of which it holds at least one.
pub open spec fn bytes_text(bytes: nat) -> Seq<char> {
    if bytes < 1000 {
        decimal(bytes).push(' ') + unit_name(0)
    } else {
        let (value, unit) = Double::of(bytes).reduced(0);
        hundredths_text(value.hundredths()).push(' ') + unit_name(unit)
    }
}

/// Two to the power `k`.
fn power_of_two(k: u32) -> (p: u128)
    requires
        k <= 100,
    ensures
        p == pow2(k as nat),
        0 < p <= 0x10_0000_0000_0000_0000_0000_0000,
{
    let mut p: u128 = 1;
    let mut i: u32 = 0;
    proof {
        vstd::arithmetic::power2::lemma2_to64();
        lemma_hundred();
    }
    while i < k
        invariant
            i <= k <= 100,
            p == pow2(i as nat),
            pow2(100) == 0x10_0000_0000_0000_0000_0000_0000,
        decreases k - i,
    {
        proof {
            lemma_pow2_unfold((i + 1) as nat);
            if i + 1 < 100 {
                lemma_pow2_strictly_increases((i + 1) as nat, 100);
            }
        }
        p = p * 2;
        i += 1;
    }
    proof {
        vstd::arithmetic::power2::lemma_pow2_pos(k as nat);
        if k < 100 {
            lemma_pow2_strictly_increases(k as nat, 100);
        }
    }
    p
}

proof fn lemma_hundred()
    ensures
        pow2(100) == 0x10_0000_0000_0000_0000_0000_0000,
{
    vstd::arithmetic::power2::lemma2_to64();
    vstd::arithmetic::power2::lemma_pow2_adds(50, 50);
    vstd::arithmetic::power2::lemma2_to64_rest();
    assert(pow2(50) == 0x4_0000_0000_0000);
}

/// `n / d` rounded to nearest, ties to even.
fn divide_nearest(n: u128, d: u128) -> (q: u128)
    requires
        0 < d <= 0x10_0000_0000_0000_0000_0000_0000,
    ensures
        q == nearest_even(n as nat, d as nat),
{
    let q: u128 = n / d;
    let r: u128 = n % d;
    if 2 * r < d || (2 * r == d && q % 2 == 0) {
        q
    } else {
        proof {
            assert(q < u128::MAX) by (nonlinear_arith)
                requires
                    q == n / d,
                    r == n % d,
                    d > 0,
                    2 * r >= d,
                    n <= u128::MAX,
                    r < d,
            ;
        }
        q + 1
    }
}

/// A number of double precision as two machine integers.
struct Binary {
    significand: u64,
    exponent: i32,
}

impl Binary {
    spec fn double(self) -> Double {
        Double { significand: self.significand as nat, exponent: self.exponent as int }
    }

    /// Normal, with an exponent between bounds that every step keeps.
    spec fn within(self, low: int) -> bool {
        SIGNIFICAND_MIN <= self.significand < SIGNIFICAND_END && low <= self.exponent <= 12
    }

    fn carried(significand: u64, exponent: i32) -> (r: Binary)
        requires
            SIGNIFICAND_MIN <= significand <= SIGNIFICAND_END,
            -100 <= exponent <= 11,
        ensures
            r.double() == Double::carried(significand as nat, exponent as int),
            r.within(exponent as int),
    {
        if significand == SIGNIFICAND_END {
            Binary { significand: SIGNIFICAND_MIN, exponent: exponent + 1 }
        } else {
            Binary { significand, exponent }
        }
    }

    /// The double nearest to a count below two to the power 64.
    fn of(bytes: u64) -> (r: Binary)
        requires
            bytes > 0,
        ensures
            r.double() == Double::of(bytes as nat),
            r.within(-52),
    {
        proof {
            vstd::arithmetic::power2::lemma2_to64();
            vstd::arithmetic::power2::lemma2_to64_rest();
        }
        if bytes < SIGNIFICAND_END {
            let mut m: u64 = bytes;
            let mut x: i32 = 0;
            while m < SIGNIFICAND_MIN
                invariant
                    0 < m < SIGNIFICAND_END,
                    -52 <= x <= 0,
                    m >= pow2((-x) as nat),
                    pow2(52) == SIGNIFICAND_MIN,
                    (Double { significand: bytes as nat, exponent: 0 }).normal() == (Double {
                        significand: m as nat,
                        exponent: x as int,
                    }).normal(),
                decreases SIGNIFICAND_END - m,
            {
                proof {
                    lemma_pow2_unfold((-x + 1) as nat);
                    if x == -52 {
                        assert(false);
                    }
                }
                m = m * 2;
                x = x - 1;
            }
            Binary { significand: m, exponent: x }
        } else {
            let mut drop: u32 = 0;
            let mut rest: u64 = bytes;
            while rest >= SIGNIFICAND_END
                invariant
                    drop <= 11,
                    excess_bits(bytes as nat) == drop + excess_bits(rest as nat),
                    rest as nat == bytes as nat / pow2(drop as nat),
                    pow2(11) == 2048,
                    pow2(drop as nat) > 0,
                decreases rest,
            {
                proof {
                    lemma_pow2_unfold((drop + 1) as nat);
                    vstd::arithmetic::div_mod::lemma_div_denominator(
                        bytes as int,
                        pow2(drop as nat) as int,
                        2,
                    );
                    if drop == 11 {
                        assert(rest as nat == bytes as nat / 2048);
                        assert(false);
                    }
                    vstd::arithmetic::power2::lemma_pow2_pos((drop + 1) as nat);
                }
                rest = rest / 2;
                drop += 1;
            }
            proof {
                lemma_excess_positive(bytes as nat);
                lemma_excess_floor(bytes as nat);
            }
            let divisor = power_of_two(drop);
            let m = divide_nearest(bytes as u128, divisor);
            Binary::carried(m as u64, drop as i32)
        }
    }

    fn thousandth(&self) -> (r: Binary)
        requires
            self.within(-90),
        ensures
            r.double() == self.double().thousandth(),
            r.within(self.exponent - 10),
    {
        proof {
            vstd::arithmetic::power2::lemma2_to64();
        }
        if self.significand * 512 >= 1000 * SIGNIFICAND_MIN {
            let q = divide_nearest((self.significand * 512) as u128, 1000);
            Binary::carried(q as u64, self.exponent - 9)
        } else {
            let q = divide_nearest((self.significand * 1024) as u128, 1000);
            Binary::carried(q as u64, self.exponent - 10)
        }
    }

    fn thousands(&self) -> (r: bool)
        requires
            self.within(-92),
        ensures
            r == self.double().thousands(),
    {
        if self.exponent >= 0 {
            proof {
                vstd::arithmetic::power2::lemma_pow2_pos(self.exponent as nat);
                assert(self.significand * pow2(self.exponent as nat) >= self.significand)
                    by (nonlinear_arith)
                    requires
                        pow2(self.exponent as nat) >= 1,
                        self.significand >= 0,
                ;
            }
            true
        } else {
            let p = power_of_two((-self.exponent) as u32);
            self.significand as u128 >= 1000 * p
        }
    }

    fn hundredths(&self) -> (h: u128)
        requires
            self.within(-92),
        ensures
            h == self.double().hundredths(),
    {
        if self.exponent >= 0 {
            let p = power_of_two(self.exponent as u32);
            proof {
                vstd::arithmetic::power2::lemma2_to64();
                if self.exponent < 12 {
                    lemma_pow2_strictly_increases(self.exponent as nat, 12);
                }
                assert(100 * self.significand * p <= 100 * 0x20_0000_0000_0000 * 4096)
                    by (nonlinear_arith)
                    requires
                        self.significand <= 0x20_0000_0000_0000,
                        p <= 4096,
                ;
            }
            100 * self.significand as u128 * p
        } else {
            let p = power_of_two((-self.exponent) as u32);
            divide_nearest(100 * self.significand as u128, p)
        }
    }
}

/// Writes a number of hundredths without trailing zeros.
fn hundredths_string(h: u128) -> (text: String)
    ensures
        text@ == hundredths_text(h as nat),
{
    let mut text = decimal_text(h / 100);
    let tenths: u8 = (h / 10 % 10) as u8;
    let last: u8 = (h % 10) as u8;
    if tenths == 0 && last == 0 {
        return text;
    }
    text.push('.');
    text.push(digit(tenths));
    if last != 0 {
        text.push(digit(last));
    }
    text
}

/// Formats a byte count in decimal units, with at most two decimals.
pub fn format_bytes(bytes: u64) -> (text: String)
    ensures
        text@ == bytes_text(bytes as nat),
{
    if bytes < 1000 {
        let mut text = decimal_text(bytes as u128);
        text.push(' ');
        text.append("B");
        return text;
    }
    let mut value = Binary::of(bytes);
    let mut unit: u8 = 0;
    while value.thousands() && unit < 4
        invariant
            unit <= 4,
            value.within(-52 - 10 * unit),
            Double::of(bytes as nat).reduced(0) == value.double().reduced(unit as nat),
        decreases 4 - unit,
    {
        value = value.thousandth();
        unit += 1;
    }
    let mut text = hundredths_string(value.hundredths());
    text.push(' ');
    let name = match unit {
        0 => "B",
        1 => "KB",
        2 => "MB",
        3 => "GB",
        _ => "TB",
    };
    text.append(name);
    text
}

proof fn lemma_excess_positive(n: nat)
    requires
        n >= SIGNIFICAND_END,
    ensures
        excess_bits(n) > 0,
{
}

/// Dropping the excess bits leaves a normal significand.
proof fn lemma_excess_floor(n: nat)
    requires
        n >= SIGNIFICAND_MIN,
    ensures
        SIGNIFICAND_MIN <= n / pow2(excess_bits(n)) < SIGNIFICAND_END,
    decreases n,
{
    vstd::arithmetic::power2::lemma2_to64();
    if n >= SIGNIFICAND_END {
        lemma_excess_floor(n / 2);
        let k = excess_bits(n / 2);
        lemma_pow2_unfold(k + 1);
        vstd::arithmetic::power2::lemma_pow2_pos(k);
        vstd::arithmetic::div_mod::lemma_div_denominator(n as int, 2, pow2(k) as int);
        assert(excess_bits(n) == k + 1);
        assert(2 * pow2(k) == pow2(k + 1));
        assert(n / pow2(k + 1) == (n / 2) / pow2(k));
    } else {
        assert(n / 1 == n);
    }
}

} // verus!
