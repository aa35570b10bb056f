//! Numbers in the bit patterns of floats.
//!
//! A pattern of single precision is a sign bit, eight bits of exponent and
//! twenty-three of mantissa; one of double precision has eleven and fifty-two.
//! Everything here is integer arithmetic on those parts.
use vstd::prelude::*;
use vstd::arithmetic::power2::pow2;

verus! {

pub const MANTISSA: u32 = 0x80_0000;

pub open spec fn exponent(bits: u32) -> u32 {
    bits / MANTISSA % 256
}

/// The mantissa of a normal number with its leading one.
pub open spec fn significand(bits: u32) -> int {
    bits % MANTISSA + MANTISSA
}

pub open spec fn is_negative(bits: u32) -> bool {
    bits >= 0x8000_0000
}

/// The magnitude of a pattern, if it is a whole number below 2^32.
pub open spec fn whole_magnitude(bits: u32) -> Option<int> {
    let e = exponent(bits);
    if e == 0 {
        if bits % MANTISSA == 0 {
            Some(0)
        } else {
            None
        }
    } else if e < 127 || e > 158 {
        None
    } else if e >= 150 {
        Some(significand(bits) * pow2((e - 150) as nat))
    } else if significand(bits) % (pow2((150 - e) as nat) as int) == 0 {
        Some(significand(bits) / (pow2((150 - e) as nat) as int))
    } else {
        None
    }
}

/// The int that a pattern stands for, if it is exactly one.
pub open spec fn whole(bits: u32) -> Option<i32> {
    match whole_magnitude(bits) {
        Some(m) => if is_negative(bits) {
            if m <= 0x8000_0000 {
                Some((-m) as i32)
            } else {
                None
            }
        } else if m < 0x8000_0000 {
            Some(m as i32)
        } else {
            None
        },
        None => None,
    }
}

/// 2^n for the shifts in use.
fn power_of_two(n: u32) -> (res: u64)
    requires
        n <= 52,
    ensures
        res == pow2(n as nat),
        1 <= res <= 0x10_0000_0000_0000,
        n <= 31 ==> res <= 0x8000_0000,
{
    let mut p: u64 = 1;
    let mut i: u32 = 0;
    proof {
        vstd::arithmetic::power2::lemma2_to64();
    }
    while i < n
        invariant
            i <= n <= 52,
            p == pow2(i as nat),
            p >= 1,
        decreases n - i,
    {
        proof {
            vstd::arithmetic::power2::lemma_pow2_unfold((i + 1) as nat);
            vstd::arithmetic::power2::lemma2_to64();
            vstd::arithmetic::power2::lemma2_to64_rest();
            if i + 1 < 52 {
                vstd::arithmetic::power2::lemma_pow2_strictly_increases((i + 1) as nat, 52);
            }
        }
        p = p * 2;
        i = i + 1;
    }
    proof {
        if n < 31 {
            vstd::arithmetic::power2::lemma_pow2_strictly_increases(n as nat, 31);
        }
        if n < 52 {
            vstd::arithmetic::power2::lemma_pow2_strictly_increases(n as nat, 52);
        }
        vstd::arithmetic::power2::lemma2_to64();
        vstd::arithmetic::power2::lemma2_to64_rest();
    }
    p
}

/// The int that a pattern stands for, if it is exactly one.
pub fn whole_from_bits(bits: u32) -> (res: Option<i32>)
    ensures
        res == whole(bits),
{
    let e: u32 = bits / MANTISSA % 256;
    let fraction: u32 = bits % MANTISSA;
    let negative: bool = bits >= 0x8000_0000;
    let magnitude: u64;
    if e == 0 {
        if fraction != 0 {
            return None;
        }
        magnitude = 0;
    } else if e < 127 || e > 158 {
        return None;
    } else {
        let full: u64 = fraction as u64 + MANTISSA as u64;
        if e >= 150 {
            let p: u64 = power_of_two(e - 150);
            assert(full * p <= 0x100_0000 * 0x8000_0000) by (nonlinear_arith)
                requires
                    full <= 0x100_0000,
                    p <= 0x8000_0000,
            ;
            magnitude = full * p;
        } else {
            let p: u64 = power_of_two(150 - e);
            if full % p != 0 {
                return None;
            }
            magnitude = full / p;
        }
    }
    if negative {
        if magnitude <= 0x8000_0000 {
            Some((-(magnitude as i64)) as i32)
        } else {
            None
        }
    } else if magnitude < 0x8000_0000 {
        Some(magnitude as i32)
    } else {
        None
    }
}

/// `value` scaled by powers of two until it has twenty-four binary digits:
/// `shift` counts the halvings so far, and `half` and `lost` say whether the last
/// halving dropped anything and whether an earlier one did.
pub open spec fn rounded(value: nat, shift: nat, half: bool, lost: bool) -> (nat, nat)
    decreases value,
{
    if value >= 0x100_0000 {
        rounded(value / 2, shift + 1, value % 2 == 1, lost || half)
    } else if half && (lost || value % 2 == 1) {
        // To the nearest, and to the even one of two that are as near.
        (value + 1, shift)
    } else {
        (value, shift)
    }
}

/// The doublings that bring a number to twenty-four binary digits.
pub open spec fn raised(value: nat, shift: nat) -> (nat, nat)
    decreases 0x100_0000 - value,
{
    if 0 < value < 0x80_0000 {
        raised(value * 2, shift + 1)
    } else {
        (value, shift)
    }
}

/// The pattern of the float nearest to a magnitude.
pub open spec fn magnitude_bits(value: nat) -> u32 {
    if value == 0 {
        0
    } else if value < 0x80_0000 {
        let (full, doublings) = raised(value, 0);
        ((150 - doublings) * MANTISSA + (full - MANTISSA)) as u32
    } else {
        let (full, halvings) = rounded(value, 0, false, false);
        if full == 0x100_0000 {
            ((151 + halvings) * MANTISSA) as u32
        } else {
            ((150 + halvings) * MANTISSA + (full - MANTISSA)) as u32
        }
    }
}

/// The pattern of the float nearest to an int.
pub open spec fn nearest(value: i32) -> u32 {
    if value < 0 {
        (magnitude_bits((-value) as nat) + 0x8000_0000) as u32
    } else {
        magnitude_bits(value as nat)
    }
}

fn magnitude_to_bits(value: u32) -> (res: u32)
    requires
        value <= 0x8000_0000,
    ensures
        res == magnitude_bits(value as nat),
        res < 0x8000_0000,
{
    if value == 0 {
        return 0;
    }
    if value < 0x80_0000 {
        let mut full: u32 = value;
        let mut doublings: u32 = 0;
        proof {
            vstd::arithmetic::power2::lemma2_to64();
        }
        while full < 0x80_0000
            invariant
                0 < full < 0x100_0000,
                doublings <= 23,
                full >= pow2(doublings as nat),
                raised(value as nat, 0) == raised(full as nat, doublings as nat),
            decreases 0x100_0000 - full,
        {
            proof {
                vstd::arithmetic::power2::lemma_pow2_unfold((doublings + 1) as nat);
                vstd::arithmetic::power2::lemma2_to64();
                if doublings >= 23 {
                    assert(doublings == 23);
                    assert(pow2(23) == 0x80_0000);
                }
            }
            full = full * 2;
            doublings = doublings + 1;
        }
        return (150 - doublings) * MANTISSA + (full - MANTISSA);
    }
    let mut full: u32 = value;
    let mut halvings: u32 = 0;
    let mut half: bool = false;
    let mut lost: bool = false;
    proof {
        vstd::arithmetic::power2::lemma2_to64();
    }
    while full >= 0x100_0000
        invariant
            0x80_0000 <= full <= 0x8000_0000,
            halvings <= 8,
            full as nat * pow2(halvings as nat) <= 0x8000_0000,
            rounded(value as nat, 0, false, false) == rounded(full as nat, halvings as nat, half, lost),
        decreases full,
    {
        proof {
            vstd::arithmetic::power2::lemma_pow2_unfold((halvings + 1) as nat);
            vstd::arithmetic::power2::lemma2_to64();
            let p = pow2(halvings as nat) as int;
            let f = full as int;
            assert((f / 2) * (2 * p) <= f * p) by (nonlinear_arith)
                requires
                    f >= 0,
                    p >= 0,
            ;
            assert(f * p <= 0x8000_0000);
            if halvings == 8 {
                assert(f * p >= 0x100_0000 * 256) by (nonlinear_arith)
                    requires
                        f >= 0x100_0000,
                        p == 256,
                ;
            }
        }
        lost = lost || half;
        half = full % 2 == 1;
        full = full / 2;
        halvings = halvings + 1;
    }
    if half && (lost || full % 2 == 1) {
        full = full + 1;
    }
    if full == 0x100_0000 {
        (151 + halvings) * MANTISSA
    } else {
        (150 + halvings) * MANTISSA + (full - MANTISSA)
    }
}

/// The pattern of the float nearest to an int.
pub fn bits_from_int(value: i32) -> (res: u32)
    ensures
        res == nearest(value),
{
    if value < 0 {
        magnitude_to_bits((-(value as i64)) as u32) + 0x8000_0000
    } else {
        magnitude_to_bits(value as u32)
    }
}

// --- colour channels ------------------------------------------------------------------------------

/// The doublings that bring a quotient by 255 to twenty-four binary digits.
pub open spec fn scaled(value: nat, shift: nat) -> (nat, nat)
    decreases 0xff00_0000 - value,
{
    if 0 < value < 0x7f80_0000 {
        scaled(value * 2, shift + 1)
    } else {
        (value, shift)
    }
}

/// The pattern of the float nearest to `byte` parts of 255. None lies halfway
/// between two floats.
pub open spec fn fraction(byte: u8) -> u32 {
    if byte == 0 {
        0
    } else {
        let (full, doublings) = scaled(byte as nat, 0);
        ((150 - doublings) * MANTISSA + ((2 * full + 255) / 510 - MANTISSA)) as u32
    }
}

pub fn fraction_bits(byte: u8) -> (res: u32)
    ensures
        res == fraction(byte),
{
    if byte == 0 {
        return 0;
    }
    let mut full: u64 = byte as u64;
    let mut doublings: u32 = 0;
    proof {
        vstd::arithmetic::power2::lemma2_to64();
    }
    while full < 0x7f80_0000
        invariant
            0 < full < 0xff00_0000,
            doublings <= 31,
            full >= pow2(doublings as nat),
            scaled(byte as nat, 0) == scaled(full as nat, doublings as nat),
        decreases 0xff00_0000 - full,
    {
        proof {
            vstd::arithmetic::power2::lemma_pow2_unfold((doublings + 1) as nat);
            vstd::arithmetic::power2::lemma2_to64();
            if doublings == 31 {
                assert(pow2(31) == 0x8000_0000);
            }
        }
        full = full * 2;
        doublings = doublings + 1;
    }
    (150 - doublings) * MANTISSA + (((2 * full + 255) / 510) as u32 - MANTISSA)
}

/// The colour channel of a float: 255 times it and a half, rounded to a float
/// once, cut to a byte. None where the pattern is no finite number.
pub open spec fn channel(bits: u32) -> Option<u8> {
    let e = exponent(bits);
    if e == 255 {
        None
    } else if is_negative(bits) || e < 117 {
        // Below 2^-10 the sum is below one.
        Some(0)
    } else if e >= 127 {
        Some(255)
    } else {
        let unit = pow2((151 - e) as nat) as int;
        let sum = 510 * significand(bits) + unit / 2;
        let (full, halvings) = rounded(sum as nat, 0, false, false);
        let part = (full * pow2(halvings)) as int / unit;
        Some(
            if part > 255 {
                255
            } else {
                part as u8
            },
        )
    }
}

pub fn channel_from_bits(bits: u32) -> (res: Option<u8>)
    ensures
        res == channel(bits),
{
    let e: u32 = bits / MANTISSA % 256;
    if e == 255 {
        return None;
    }
    if bits >= 0x8000_0000 || e < 117 {
        return Some(0);
    }
    if e >= 127 {
        return Some(255);
    }
    let unit: u64 = power_of_two(151 - e);
    proof {
        vstd::arithmetic::power2::lemma2_to64();
        vstd::arithmetic::power2::lemma2_to64_rest();
        vstd::arithmetic::power2::lemma_pow2_strictly_increases(0, (151 - e) as nat);
        if 151 - e < 35 {
            vstd::arithmetic::power2::lemma_pow2_strictly_increases((151 - e) as nat, 35);
        }
    }
    let sum: u64 = 510 * ((bits % MANTISSA) as u64 + MANTISSA as u64) + unit / 2;
    let mut full: u64 = sum;
    let mut halvings: u32 = 0;
    let mut half: bool = false;
    let mut lost: bool = false;
    let mut scale: u64 = 1;
    assert(sum <= 0x6_0000_0000);
    while full >= 0x100_0000
        invariant
            0 < full <= 0x6_0000_0000,
            halvings <= 11,
            scale == pow2(halvings as nat),
            1 <= scale <= 0x800,
            full * scale <= 0x6_0000_0000,
            rounded(sum as nat, 0, false, false) == rounded(full as nat, halvings as nat, half, lost),
        decreases full,
    {
        proof {
            vstd::arithmetic::power2::lemma_pow2_unfold((halvings + 1) as nat);
            vstd::arithmetic::power2::lemma2_to64();
            let f = full as int;
            let p = scale as int;
            assert((f / 2) * (2 * p) <= f * p) by (nonlinear_arith)
                requires
                    f >= 0,
                    p >= 0,
            ;
            if halvings >= 11 {
                assert(p == 0x800);
                assert(f * p >= 0x100_0000 * 0x800) by (nonlinear_arith)
                    requires
                        f >= 0x100_0000,
                        p == 0x800,
                ;
            }
        }
        lost = lost || half;
        half = full % 2 == 1;
        full = full / 2;
        halvings = halvings + 1;
        scale = scale * 2;
    }
    if half && (lost || full % 2 == 1) {
        full = full + 1;
    }
    assert(full * scale <= 0x100_0000 * 0x800) by (nonlinear_arith)
        requires
            full <= 0x100_0000,
            scale <= 0x800,
    ;
    let part: u64 = full * scale / unit;
    Some(if part > 255 { 255 } else { part as u8 })
}

// --- doubles ------------------------------------------------------------------------------------------

pub const DOUBLE_MANTISSA: u64 = 0x10_0000_0000_0000;

pub open spec fn double_exponent(bits: u64) -> int {
    (bits / DOUBLE_MANTISSA % 2048) as int
}

/// The mantissa of a double with the leading one that a normal number has.
pub open spec fn double_significand(bits: u64) -> int {
    if double_exponent(bits) == 0 {
        (bits % DOUBLE_MANTISSA) as int
    } else {
        bits % DOUBLE_MANTISSA + DOUBLE_MANTISSA
    }
}

/// The power of two by which the mantissa of a double is to be divided.
pub open spec fn double_shift(bits: u64) -> int {
    if double_exponent(bits) == 0 {
        1074
    } else {
        1075 - double_exponent(bits)
    }
}

/// The highest whole number that is not above a double. None where the pattern is
/// no finite number.
pub open spec fn double_floor(bits: u64) -> Option<int> {
    let m = if bits >= 0x8000_0000_0000_0000 {
        -double_significand(bits)
    } else {
        double_significand(bits)
    };
    if double_exponent(bits) == 2047 {
        None
    } else if double_shift(bits) >= 0 {
        Some(m / (pow2(double_shift(bits) as nat) as int))
    } else {
        Some(m * pow2((-double_shift(bits)) as nat))
    }
}

/// The highest whole number that is not above a double, where it lies in a range.
pub open spec fn floor_within(bits: u64, low: i32, high: i32) -> Option<i32> {
    match double_floor(bits) {
        Some(n) => if low <= n <= high {
            Some(n as i32)
        } else {
            None
        },
        None => None,
    }
}

proof fn lemma_far_out(bits: u64)
    requires
        1048 < double_exponent(bits) < 2047,
    ensures
        double_floor(bits) matches Some(n) && (n >= 0x400_0000 || n <= -0x400_0000),
{
    let m = double_significand(bits);
    assert(m >= 0x10_0000_0000_0000);
    let shift = double_shift(bits);
    if shift >= 0 {
        let p = pow2(shift as nat) as int;
        vstd::arithmetic::power2::lemma2_to64();
        vstd::arithmetic::power2::lemma_pow2_pos(shift as nat);
        if shift < 26 {
            vstd::arithmetic::power2::lemma_pow2_strictly_increases(shift as nat, 26);
        }
        assert(p <= 0x400_0000);
        assert(m / p >= 0x400_0000) by (nonlinear_arith)
            requires
                m >= 0x10_0000_0000_0000,
                0 < p <= 0x400_0000,
        ;
        assert((-m) / p <= -0x400_0000) by (nonlinear_arith)
            requires
                m >= 0x10_0000_0000_0000,
                0 < p <= 0x400_0000,
        ;
    } else {
        let p = pow2((-shift) as nat) as int;
        vstd::arithmetic::power2::lemma_pow2_pos((-shift) as nat);
        assert(m * p >= m) by (nonlinear_arith)
            requires
                m >= 0,
                p >= 1,
        ;
        assert((-m) * p <= -m) by (nonlinear_arith)
            requires
                m >= 0,
                p >= 1,
        ;
    }
}

proof fn lemma_small(bits: u64)
    requires
        double_exponent(bits) < 1023,
    ensures
        double_floor(bits) == Some(
            if bits >= 0x8000_0000_0000_0000 && double_significand(bits) != 0 {
                -1int
            } else {
                0int
            },
        ),
{
    let m = double_significand(bits);
    let shift = double_shift(bits);
    let p = pow2(shift as nat) as int;
    vstd::arithmetic::power2::lemma2_to64_rest();
    if shift > 53 {
        vstd::arithmetic::power2::lemma_pow2_strictly_increases(53, shift as nat);
    }
    assert(p >= 0x20_0000_0000_0000);
    assert(0 <= m < p);
    assert(m / p == 0) by (nonlinear_arith)
        requires
            0 <= m < p,
    ;
    assert(m > 0 ==> (-m) / p == -1) by (nonlinear_arith)
        requires
            0 <= m < p,
    ;
}

/// The highest whole number that is not above a double, where it lies in a range.
pub fn floor_in_range(bits: u64, low: i32, high: i32) -> (res: Option<i32>)
    requires
        -0x400_0000 < low,
        high < 0x400_0000,
    ensures
        res == floor_within(bits, low, high),
{
    let e: u64 = bits / DOUBLE_MANTISSA % 2048;
    let negative: bool = bits >= 0x8000_0000_0000_0000;
    let low_bits: u64 = bits % DOUBLE_MANTISSA;
    if e == 2047 {
        return None;
    }
    let n: i64;
    if e > 1048 {
        proof {
            lemma_far_out(bits);
        }
        return None;
    } else if e < 1023 {
        proof {
            lemma_small(bits);
        }
        n = if negative && (e != 0 || low_bits != 0) { -1 } else { 0 };
    } else {
        let p: u64 = power_of_two((1075 - e) as u32);
        let m: u64 = low_bits + DOUBLE_MANTISSA;
        let whole: u64 = m / p;
        let rest: u64 = m % p;
        proof {
            vstd::arithmetic::power2::lemma2_to64();
            if 1075 - e > 27 {
                vstd::arithmetic::power2::lemma_pow2_strictly_increases(27, (1075 - e) as nat);
            }
            assert(whole <= 0x400_0000) by (nonlinear_arith)
                requires
                    whole == m / p,
                    m <= 0x20_0000_0000_0000,
                    p >= 0x800_0000,
            ;
            let a = m as int;
            let b = p as int;
            vstd::arithmetic::div_mod::lemma_fundamental_div_mod(a, b);
            if rest == 0 {
                assert((-a) / b == -(a / b)) by (nonlinear_arith)
                    requires
                        a == b * (a / b),
                        b > 0,
                ;
            } else {
                assert((-a) / b == -(a / b) - 1) by (nonlinear_arith)
                    requires
                        a == b * (a / b) + a % b,
                        0 < a % b < b,
                ;
            }
        }
        n = if negative {
            if rest == 0 {
                -(whole as i64)
            } else {
                -(whole as i64) - 1
            }
        } else {
            whole as i64
        };
    }
    if n >= low as i64 && n <= high as i64 {
        Some(n as i32)
    } else {
        None
    }
}

// --- laws -----------------------------------------------------------------------------------------

proof fn lemma_raised(value: nat, shift: nat)
    requires
        0 < value < 0x100_0000,
    ensures
        ({
            let (full, doublings) = raised(value, shift);
            &&& shift <= doublings
            &&& 0x80_0000 <= full < 0x100_0000
            &&& full == value * pow2((doublings - shift) as nat)
        }),
    decreases 0x100_0000 - value,
{
    vstd::arithmetic::power2::lemma2_to64();
    if value < 0x80_0000 {
        lemma_raised(value * 2, shift + 1);
        let (full, doublings) = raised(value, shift);
        let n = (doublings - shift) as nat;
        vstd::arithmetic::power2::lemma_pow2_unfold(n);
        let p = pow2((n - 1) as nat);
        assert(full == (value * 2) * p);
        assert((value * 2) * p == value * (2 * p)) by (nonlinear_arith);
    } else {
        assert(value * 1 == value) by (nonlinear_arith);
    }
}

/// The magnitude of a pattern by its parts; the sign does not matter.
proof fn lemma_parts(bits: u32, e: int, fraction: int)
    requires
        0 <= e < 256,
        0 <= fraction < MANTISSA,
        bits == e * MANTISSA + fraction || bits == e * MANTISSA + fraction + 0x8000_0000,
    ensures
        exponent(bits) == e,
        significand(bits) == fraction + MANTISSA,
        bits % MANTISSA == fraction,
{
    assert(MANTISSA == 0x80_0000);
}

proof fn lemma_small_magnitude(value: nat, bits: u32)
    requires
        value <= 0x100_0000,
        bits == magnitude_bits(value) || bits == magnitude_bits(value) + 0x8000_0000,
    ensures
        whole_magnitude(bits) == Some(value as int),
        magnitude_bits(value) < 0x8000_0000,
{
    vstd::arithmetic::power2::lemma2_to64();
    if value == 0 {
        lemma_parts(bits, 0, 0);
    } else if value < 0x80_0000 {
        lemma_raised(value, 0);
        let (full, doublings) = raised(value, 0);
        let p = pow2(doublings) as int;
        assert(full >= p) by (nonlinear_arith)
            requires
                full == value * p,
                value >= 1,
                p >= 0,
        ;
        if doublings >= 24 {
            if doublings > 24 {
                vstd::arithmetic::power2::lemma_pow2_strictly_increases(24, doublings);
            }
            assert(false);
        }
        if doublings == 0 {
            assert(value * p == value) by (nonlinear_arith)
                requires
                    p == 1,
            ;
        }
        lemma_parts(bits, 150 - doublings, full - MANTISSA);
        vstd::arithmetic::power2::lemma_pow2_pos(doublings);
        vstd::arithmetic::div_mod::lemma_mod_multiples_basic(value as int, p);
        vstd::arithmetic::div_mod::lemma_div_by_multiple(value as int, p);
        assert((150 - exponent(bits)) as nat == doublings);
        assert(significand(bits) == value * p);
        assert(significand(bits) % p == 0 && significand(bits) / p == value);
    } else if value < 0x100_0000 {
        assert(rounded(value, 0, false, false) == (value, 0nat));
        lemma_parts(bits, 150, value - MANTISSA);
        let p = pow2((exponent(bits) - 150) as nat);
        assert(significand(bits) * p == value) by (nonlinear_arith)
            requires
                significand(bits) == value,
                p == 1,
        ;
    } else {
        assert(rounded(0x80_0000, 1, false, false) == (0x80_0000nat, 1nat));
        lemma_parts(bits, 151, 0);
        let p = pow2((exponent(bits) - 150) as nat);
        assert(significand(bits) * p == value) by (nonlinear_arith)
            requires
                significand(bits) == 0x80_0000,
                p == 2,
                value == 0x100_0000,
        ;
    }
}

/// Every int of up to twenty-four binary digits is a float, and comes back from its
/// pattern.
pub proof fn small_ints_come_back(value: i32)
    requires
        -0x100_0000 <= value <= 0x100_0000,
    ensures
        whole(nearest(value)) == Some(value),
{
    let magnitude = if value < 0 {
        (-value) as nat
    } else {
        value as nat
    };
    lemma_small_magnitude(magnitude, magnitude_bits(magnitude));
    lemma_small_magnitude(magnitude, nearest(value));
}

proof fn lemma_rounded_exact(full: nat, k: nat, shift: nat)
    requires
        0x80_0000 <= full < 0x100_0000,
    ensures
        rounded(full * pow2(k), shift, false, false) == (full, shift + k),
        full * pow2(k) >= 0x80_0000,
    decreases k,
{
    vstd::arithmetic::power2::lemma2_to64();
    if k == 0 {
        assert(full * 1 == full) by (nonlinear_arith);
    } else {
        let p = pow2((k - 1) as nat);
        vstd::arithmetic::power2::lemma_pow2_unfold(k);
        lemma_rounded_exact(full, (k - 1) as nat, shift + 1);
        assert(full * (2 * p) == 2 * (full * p)) by (nonlinear_arith);
    }
}

proof fn lemma_raised_exact(value: nat, full: nat, k: nat, shift: nat)
    requires
        0x80_0000 <= full < 0x100_0000,
        full == value * pow2(k),
    ensures
        raised(value, shift) == (full, shift + k),
        k > 0 ==> 0 < value < 0x80_0000,
    decreases k,
{
    vstd::arithmetic::power2::lemma2_to64();
    if k == 0 {
        assert(value * 1 == value) by (nonlinear_arith);
    } else {
        let p = pow2((k - 1) as nat);
        vstd::arithmetic::power2::lemma_pow2_unfold(k);
        vstd::arithmetic::power2::lemma_pow2_pos((k - 1) as nat);
        assert((value * 2) * p == value * (2 * p)) by (nonlinear_arith);
        assert(0 < value && value * 2 <= full) by (nonlinear_arith)
            requires
                full == (value * 2) * p,
                full > 0,
                p >= 1,
        ;
        lemma_raised_exact(value * 2, full, (k - 1) as nat, shift + 1);
    }
}

proof fn lemma_exact_magnitude(bits: u32)
    requires
        whole_magnitude(bits) is Some,
        exponent(bits) != 0,
    ensures
        whole_magnitude(bits).unwrap() > 0,
        magnitude_bits(whole_magnitude(bits).unwrap() as nat) == bits % 0x8000_0000,
{
    let e = exponent(bits) as int;
    let full = significand(bits) as nat;
    let magnitude = whole_magnitude(bits).unwrap();
    assert(bits % 0x8000_0000 == e * MANTISSA + (full - MANTISSA));
    if e >= 150 {
        lemma_rounded_exact(full, (e - 150) as nat, 0);
        assert(magnitude == full * pow2((e - 150) as nat));
    } else {
        let k = (150 - e) as nat;
        let p = pow2(k) as int;
        vstd::arithmetic::power2::lemma_pow2_pos(k);
        vstd::arithmetic::div_mod::lemma_fundamental_div_mod(full as int, p);
        vstd::arithmetic::div_mod::lemma_div_pos_is_pos(full as int, p);
        assert(magnitude * p == p * magnitude) by (nonlinear_arith);
        lemma_raised_exact(magnitude as nat, full, k, 0);
    }
}

/// A pattern that stands for an int is that int's own pattern: nothing is lost on the
/// way there and back. Only the negative zero comes back as the other one.
pub proof fn whole_patterns_come_back(bits: u32)
    requires
        whole(bits) is Some,
        bits != 0x8000_0000,
    ensures
        nearest(whole(bits).unwrap()) == bits,
{
    if exponent(bits) == 0 {
        assert(bits == 0);
    } else {
        lemma_exact_magnitude(bits);
    }
}

proof fn lemma_rounded_is_close(value: nat, shift: nat, half: bool, lost: bool, most: nat)
    requires
        value < pow2(24 + most),
    ensures
        ({
            let (full, halvings) = rounded(value, shift, half, lost);
            let step = pow2((halvings - shift) as nat) as int;
            &&& shift <= halvings <= shift + most
            &&& value - step < full * step <= value + step
        }),
    decreases value,
{
    vstd::arithmetic::power2::lemma2_to64();
    if value >= 0x100_0000 {
        if most == 0 {
            assert(false);
        }
        vstd::arithmetic::power2::lemma_pow2_unfold(24 + most);
        lemma_rounded_is_close(value / 2, shift + 1, value % 2 == 1, lost || half, (most - 1) as nat);
        let (full, halvings) = rounded(value, shift, half, lost);
        let k = (halvings - shift) as nat;
        vstd::arithmetic::power2::lemma_pow2_unfold(k);
        let low = pow2((k - 1) as nat) as int;
        assert(full * (2 * low) == 2 * (full * low)) by (nonlinear_arith);
    } else {
        let full = rounded(value, shift, half, lost).0;
        assert(full * 1 == full) by (nonlinear_arith);
    }
}

proof fn lemma_scaled(value: nat, shift: nat)
    requires
        0 < value < 0xff00_0000,
    ensures
        ({
            let (full, doublings) = scaled(value, shift);
            &&& doublings >= shift
            &&& full == value * pow2((doublings - shift) as nat)
            &&& 0x7f80_0000 <= full < 0xff00_0000
        }),
    decreases 0xff00_0000 - value,
{
    vstd::arithmetic::power2::lemma2_to64();
    if value < 0x7f80_0000 {
        lemma_scaled(value * 2, shift + 1);
        let (full, doublings) = scaled(value, shift);
        let k = (doublings - shift) as nat;
        vstd::arithmetic::power2::lemma_pow2_unfold(k);
        let low = pow2((k - 1) as nat);
        assert(value * 2 * low == value * (2 * low)) by (nonlinear_arith);
    } else {
        assert(value * 1 == value) by (nonlinear_arith);
    }
}

/// A byte takes between 23 and 31 doublings.
proof fn lemma_doublings(byte: u8)
    requires
        byte > 0,
    ensures
        ({
            let (full, doublings) = scaled(byte as nat, 0);
            &&& 23 <= doublings <= 31
            &&& full == byte * pow2(doublings)
            &&& 0x7f80_0000 <= full <= 0xff00_0000 - 0x80_0000
        }),
{
    lemma_scaled(byte as nat, 0);
    vstd::arithmetic::power2::lemma2_to64();
    let (full, doublings) = scaled(byte as nat, 0);
    if doublings < 23 {
        vstd::arithmetic::power2::lemma_pow2_strictly_increases(doublings, 23);
        assert(byte * pow2(doublings) <= 255 * (0x80_0000 - 1)) by (nonlinear_arith)
            requires
                byte <= 255,
                pow2(doublings) <= 0x80_0000 - 1,
        ;
    }
    if doublings > 31 {
        if doublings > 32 {
            vstd::arithmetic::power2::lemma_pow2_strictly_increases(32, doublings);
        }
        assert(byte * pow2(doublings) >= 0x1_0000_0000) by (nonlinear_arith)
            requires
                byte >= 1,
                pow2(doublings) >= 0x1_0000_0000,
        ;
    }
    if doublings == 23 {
        assert(full == byte * 0x80_0000) by (nonlinear_arith)
            requires
                full == byte * pow2(doublings),
                pow2(doublings) == 0x80_0000,
        ;
    } else {
        let k = (doublings - 24) as nat;
        vstd::arithmetic::power2::lemma_pow2_adds(24, k);
        let parts = byte * pow2(k);
        assert(full == 0x100_0000 * parts) by (nonlinear_arith)
            requires
                full == byte * pow2(doublings),
                pow2(doublings) == 0x100_0000 * pow2(k),
                parts == byte * pow2(k),
        ;
    }
}

/// A channel of a colour that was written as a float is read back.
#[verifier::spinoff_prover]
pub proof fn channels_come_back(byte: u8)
    ensures
        channel(fraction(byte)) == Some(byte),
{
    if byte > 0 {
        lemma_doublings(byte);
        vstd::arithmetic::power2::lemma2_to64();
        let (full, doublings) = scaled(byte as nat, 0);
        let m = (2 * full + 255) / 510;
        assert(2 * full - 255 <= 510 * m <= 2 * full + 255);
        assert(0x80_0000 <= m < 0x100_0000);
        let bits = fraction(byte);
        lemma_parts(bits, 150 - doublings, m - MANTISSA);
        if doublings == 23 {
            assert(full == byte * 0x80_0000) by (nonlinear_arith)
                requires
                    full == byte * pow2(doublings),
                    pow2(doublings) == 0x80_0000,
            ;
            assert(byte == 255);
        } else {
            let unit = pow2((doublings + 1) as nat) as int;
            vstd::arithmetic::power2::lemma_pow2_unfold((doublings + 1) as nat);
            vstd::arithmetic::power2::lemma2_to64_rest();
            let sum = (510 * m + unit / 2) as nat;
            assert(doublings == 24 || doublings == 25 || doublings == 26 || doublings == 27 || doublings == 28
                || doublings == 29 || doublings == 30 || doublings == 31);
            assert(0x200_0000 <= unit <= 0x1_0000_0000);
            assert(2 * full == byte * unit) by (nonlinear_arith)
                requires
                    full == byte * pow2(doublings),
                    unit == 2 * pow2(doublings),
            ;
            lemma_rounded_is_close(sum, 0, false, false, 10);
            let (near, halvings) = rounded(sum, 0, false, false);
            if halvings < 10 {
                vstd::arithmetic::power2::lemma_pow2_strictly_increases(halvings, 10);
            }
            let part = near * pow2(halvings);
            assert(byte * unit <= part < byte * unit + unit);
            assert(part as int / unit == byte) by (nonlinear_arith)
                requires
                    byte * unit <= part < byte * unit + unit,
                    unit > 0,
            ;
        }
    }
}

} // verus!
