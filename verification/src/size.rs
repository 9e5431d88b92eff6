//! File sizes for people to read.
//!
//! A size is shown with one decimal, as the nearest binary64 floating-point
//! number is when that is brought below 1024 of some unit and printed. All of it
//! is done in whole numbers here: such a number is one, and dividing it by 1024
//! loses nothing.

use crate::text;
use vstd::arithmetic::power2::*;
use vstd::prelude::*;
use vstd::string::*;

verus! {

/// `num / den` to the nearest whole number, and to the even one of two that are
/// as near.
pub open spec fn rounded(num: int, den: int) -> int {
    let q = num / den;
    let r = num % den;
    if 2 * r < den || (2 * r == den && q % 2 == 0) {
        q
    } else {
        q + 1
    }
}

/// The distance between binary64 numbers around `n`, as far as it is more than
/// one: they have 53 significant bits.
pub open spec fn spacing(n: int) -> int
    decreases n,
{
    if n < 0x20_0000_0000_0000 {
        1
    } else {
        2 * spacing(n / 2)
    }
}

/// The binary64 number that is nearest to `n`.
pub open spec fn nearest_double(n: int) -> int {
    rounded(n, spacing(n)) * spacing(n)
}

/// How many bytes a kilobyte has, a megabyte, and so on up to the petabyte.
pub open spec fn unit_bytes(unit: int) -> int {
    if unit == 0 {
        1
    } else if unit == 1 {
        0x400
    } else if unit == 2 {
        0x10_0000
    } else if unit == 3 {
        0x4000_0000
    } else if unit == 4 {
        0x100_0000_0000
    } else {
        0x4_0000_0000_0000
    }
}

/// The largest unit of which `m` has one or more, or the byte.
pub open spec fn unit_of(m: int) -> int {
    if m < unit_bytes(1) {
        0
    } else if m < unit_bytes(2) {
        1
    } else if m < unit_bytes(3) {
        2
    } else if m < unit_bytes(4) {
        3
    } else if m < unit_bytes(5) {
        4
    } else {
        5
    }
}

/// The name of a unit, behind a space.
pub open spec fn unit_name(unit: int) -> Seq<char> {
    if unit == 0 {
        " B"@
    } else if unit == 1 {
        " KB"@
    } else if unit == 2 {
        " MB"@
    } else if unit == 3 {
        " GB"@
    } else if unit == 4 {
        " TB"@
    } else {
        " PB"@
    }
}

/// How many tenths of its unit a size is shown as.
pub open spec fn shown_tenths(m: int) -> int {
    rounded(m * 10, unit_bytes(unit_of(m)))
}

/// A size as it is shown: bytes as they are, larger units with one decimal.
pub open spec fn size_text(n: u64) -> Seq<char> {
    let m = nearest_double(n as int);
    let unit = unit_of(m);
    if unit == 0 {
        text::decimal_digits(m as nat) + unit_name(0)
    } else {
        let tenths = shown_tenths(m);
        text::decimal_digits((tenths / 10) as nat) + seq!['.', text::digit((tenths % 10) as nat)]
            + unit_name(unit)
    }
}

fn round_div(num: u128, den: u128) -> (r: u128)
    requires
        0 < den < 0x1_0000_0000_0000_0000,
        num < 0x1_0000_0000_0000_0000_0000,
    ensures
        r == rounded(num as int, den as int),
        r <= num / den + 1,
{
    let q: u128 = num / den;
    let r: u128 = num % den;
    assert(q <= num) by (nonlinear_arith)
        requires
            q == num / den,
            den > 0,
    ;
    if 2 * r < den || (2 * r == den && q % 2 == 0) {
        q
    } else {
        q + 1
    }
}

fn spacing_of(n: u64) -> (r: u64)
    ensures
        r == spacing(n as int),
        1 <= r < 4096,
        r == 1 || r * 0x10_0000_0000_0000 <= n,
    decreases n,
{
    if n < 0x20_0000_0000_0000 {
        1
    } else {
        2 * spacing_of(n / 2)
    }
}

/// Writes a size for people to read.
pub fn human_size(n: u64) -> (r: String)
    ensures
        r@ == size_text(n),
{
    let step: u64 = spacing_of(n);
    let steps: u128 = round_div(n as u128, step as u128);
    proof {
        lemma_nearest(n as int, step as int);
    }
    let m: u128 = steps * (step as u128);
    let unit: usize = if m < 0x400 {
        0
    } else if m < 0x10_0000 {
        1
    } else if m < 0x4000_0000 {
        2
    } else if m < 0x100_0000_0000 {
        3
    } else if m < 0x4_0000_0000_0000 {
        4
    } else {
        5
    };
    if unit == 0 {
        let mut s = text::decimal(m as u64);
        s.append(" B");
        return s;
    }
    let den: u128 = if unit == 1 {
        0x400
    } else if unit == 2 {
        0x10_0000
    } else if unit == 3 {
        0x4000_0000
    } else if unit == 4 {
        0x100_0000_0000
    } else {
        0x4_0000_0000_0000
    };
    let tenths: u128 = round_div(m * 10, den);
    let mut s = text::decimal((tenths / 10) as u64);
    s.push('.');
    s.push((48u8 + (tenths % 10) as u8) as char);
    if unit == 1 {
        s.append(" KB");
    } else if unit == 2 {
        s.append(" MB");
    } else if unit == 3 {
        s.append(" GB");
    } else if unit == 4 {
        s.append(" TB");
    } else {
        s.append(" PB");
    }
    assert(s@ =~= size_text(n));
    s
}

/// Rounding to a multiple of the spacing moves a size by half the spacing at
/// most.
proof fn lemma_nearest(n: int, step: int)
    requires
        0 <= n < 0x1_0000_0000_0000_0000,
        step == spacing(n),
        1 <= step < 4096,
        step == 1 || step * 0x10_0000_0000_0000 <= n,
    ensures
        nearest_double(n) == rounded(n, step) * step,
        n - step <= 2 * nearest_double(n) - n <= n + step,
        0 <= rounded(n, step) <= n + 1,
        nearest_double(n) <= 0x1_0000_0000_0000_1000,
{
    let q = n / step;
    let r = n % step;
    assert(q * step + r == n && 0 <= r < step && q >= 0) by (nonlinear_arith)
        requires
            q == n / step,
            r == n % step,
            step >= 1,
            n >= 0,
    ;
    assert((q + 1) * step == q * step + step) by (nonlinear_arith);
    assert(q <= n) by (nonlinear_arith)
        requires
            q * step + r == n,
            step >= 1,
            r >= 0,
            q >= 0,
    ;
}

// ------------------------------------------------------------------------
// Laws
// ------------------------------------------------------------------------

/// Sizes below 2^53 are floating-point numbers themselves.
pub proof fn law_sizes_are_exact(n: u64)
    requires
        n < 0x20_0000_0000_0000,
    ensures
        nearest_double(n as int) == n,
{
}

/// What is shown of a size is off by no more than half a tenth of its unit.
pub proof fn law_shown_to_half_a_tenth(m: int)
    requires
        0 <= m,
    ensures
        ({
            let bytes = unit_bytes(unit_of(m));
            &&& 2 * (shown_tenths(m) * bytes - 10 * m) <= bytes
            &&& 2 * (10 * m - shown_tenths(m) * bytes) <= bytes
        }),
{
    let bytes = unit_bytes(unit_of(m));
    let q = (10 * m) / bytes;
    let r = (10 * m) % bytes;
    assert(q * bytes + r == 10 * m && 0 <= r < bytes) by (nonlinear_arith)
        requires
            q == (10 * m) / bytes,
            r == (10 * m) % bytes,
            bytes >= 1,
    ;
    assert((q + 1) * bytes == q * bytes + bytes) by (nonlinear_arith);
}

/// A size is shown in a unit of which it has at least one, and in bytes alone
/// only below a kilobyte.
pub proof fn law_unit_fits(m: int)
    requires
        0 <= m,
    ensures
        unit_of(m) == 0 <==> m < 1024,
        unit_of(m) > 0 ==> unit_bytes(unit_of(m)) <= m,
        0 <= unit_of(m) < 5 ==> m < 1024 * unit_bytes(unit_of(m)),
{
}

proof fn lemma_rounded(num: int, den: int)
    requires
        num >= 0,
        den >= 1,
    ensures
        ({
            let x = rounded(num, den);
            &&& 0 <= x
            &&& -den <= 2 * (x * den - num) <= den
            &&& 2 * (x * den - num) == den || 2 * (x * den - num) == -den ==> x % 2 == 0
        }),
{
    let q = num / den;
    let r = num % den;
    assert(q * den + r == num && 0 <= r < den && q >= 0) by (nonlinear_arith)
        requires
            q == num / den,
            r == num % den,
            den >= 1,
            num >= 0,
    ;
    assert((q + 1) * den == q * den + den) by (nonlinear_arith);
}

proof fn lemma_spacing(n: int) -> (e: nat)
    requires
        0 <= n,
    ensures
        spacing(n) == pow2(e),
        spacing(n) >= 1,
        n < 0x20_0000_0000_0000 ==> spacing(n) == 1,
        n >= 0x20_0000_0000_0000 ==> 0x10_0000_0000_0000 * spacing(n) <= n < 0x20_0000_0000_0000
            * spacing(n),
    decreases n,
{
    if n < 0x20_0000_0000_0000 {
        lemma2_to64();
        0
    } else {
        let e = lemma_spacing(n / 2);
        lemma_pow2_unfold(e + 1);
        e + 1
    }
}

/// A size is taken as the nearest number that has no more than 53 binary digits
/// before its zeros: it is moved by half the distance of such numbers at the most,
/// and between two that are as near to the one whose last digit is even.
pub proof fn law_sizes_have_53_binary_digits(n: u64) -> (r: (int, nat))
    ensures
        ({
            let (digits, zeros) = r;
            let step = pow2(zeros) as int;
            &&& nearest_double(n as int) == digits * step
            &&& n < 0x20_0000_0000_0000 ==> zeros == 0 && digits == n
            &&& n >= 0x20_0000_0000_0000 ==> 0x10_0000_0000_0000 * step <= n
                < 0x20_0000_0000_0000 * step
            &&& -step <= 2 * (digits * step - n) <= step
            &&& 2 * (digits * step - n) == step || 2 * (digits * step - n) == -step ==> digits % 2
                == 0
        }),
{
    lemma2_to64();
    if n < 0x20_0000_0000_0000 {
        (n as int, 0)
    } else {
        let e = lemma_spacing(n as int);
        lemma_rounded(n as int, spacing(n as int));
        (rounded(n as int, spacing(n as int)), e)
    }
}

/// A size is shown as people read it. Below a kilobyte it is the number of bytes.
/// From there on it is a number with one decimal in the largest unit, up to the
/// petabyte, of which the size has one or more; that is the nearest such number to
/// the size, and the one with the even decimal if two are as near.
pub proof fn law_size_is_shown_in_its_unit(n: u64) -> (r: (Seq<char>, char, int, Seq<char>))
    ensures
        ({
            let (whole, decimal, bytes, unit) = r;
            let m = nearest_double(n as int);
            let tenths = 10 * text::digits_value(whole) + (decimal as int - '0' as int);
            &&& n < 1024 ==> size_text(n) == whole + " B"@ && text::is_number(whole, n as int)
            &&& n >= 1024 ==> {
                &&& size_text(n) == whole + seq!['.', decimal] + unit
                &&& {
                    ||| bytes == 0x400 && unit == " KB"@
                    ||| bytes == 0x10_0000 && unit == " MB"@
                    ||| bytes == 0x4000_0000 && unit == " GB"@
                    ||| bytes == 0x100_0000_0000 && unit == " TB"@
                    ||| bytes == 0x4_0000_0000_0000 && unit == " PB"@
                }
                &&& bytes <= n
                &&& bytes < 0x4_0000_0000_0000 ==> n < 1024 * bytes
                &&& text::is_number(whole, text::digits_value(whole) as int)
                &&& '0' <= decimal <= '9'
                &&& -bytes <= 2 * (tenths * bytes - 10 * m) <= bytes
                &&& 2 * (tenths * bytes - 10 * m) == bytes || 2 * (tenths * bytes - 10 * m)
                    == -bytes ==> tenths % 2 == 0
            }
        }),
{
    let m = nearest_double(n as int);
    lemma_spacing(n as int);
    lemma_rounded(n as int, spacing(n as int));
    let step = spacing(n as int);
    let unit = unit_of(m);
    let bytes = unit_bytes(unit);
    if n < 1024 {
        text::law_decimal_is_a_number(n);
        (text::decimal_digits(n as nat), '0', 1, " B"@)
    } else {
        assert(n >= 0x20_0000_0000_0000 ==> step <= 4096 && m >= n - 2048 && m <= n + 2048);
        let tenths = shown_tenths(m);
        lemma_rounded(m * 10, bytes);
        assert(tenths * 1024 <= tenths * bytes) by (nonlinear_arith)
            requires
                tenths >= 0,
                bytes >= 1024,
        ;
        let whole = text::decimal_digits((tenths / 10) as nat);
        text::law_decimal_is_a_number((tenths / 10) as u64);
        let decimal = text::digit((tenths % 10) as nat);
        assert(10 * text::digits_value(whole) + (decimal as int - '0' as int) == tenths);
        (whole, decimal, bytes, unit_name(unit))
    }
}

} // verus!
