//! The primitive fields of the wire format.
//!
//! A reader is a byte slice that shrinks from the front. Each `take_*` spec
//! function says which value stands at the front of a byte string and what is
//! left behind it; each `enc_*` spec function gives the bytes of a value. The
//! `get_*` and `write_*` functions are held to them. Floats travel as their
//! bit patterns: nothing here computes with them.
use vstd::prelude::*;
use vstd::slice::slice_subrange;

verus! {

/// The bytes at hand are not what the layout calls for.
#[derive(Clone, Copy, PartialEq, Eq, Structural, Debug)]
pub enum ReadingError {
    Malformed,
}

/// Why a packet is not translated.
#[derive(Clone, Copy, PartialEq, Eq, Structural, Debug)]
pub enum TranslateError {
    /// The bytes at hand are not what the layout calls for.
    Malformed,
    /// A stack has no form in the client's release.
    Unwritable,
    /// So many bytes stand behind what the layout calls for.
    TrailingBytes(usize),
    /// The packet does not come in the layout of the server's own release.
    SourceLayout,
    /// A list has more entries than there may be, or fewer than none.
    Count,
    /// A list is too long for its count to be written.
    ListSize,
    /// What names a recipe is no number of a recipe.
    Identifier,
    /// There are no numbers left for the stonecutter's recipes.
    Numbering,
    /// A display is of a kind that there is no layout for.
    UnknownDisplay,
    /// A recipe is of a kind that there is no layout for.
    UnknownRecipe,
    /// A set of items has more of them than there may be, or fewer than none.
    ItemSet,
    /// What names an item is no number of an item.
    ItemNumber,
    /// What names a component is no number of a component.
    ComponentNumber,
    /// The grid of a shaped recipe is not between one by one and three by three.
    GridSize,
    /// The ingredients of a shaped recipe do not fill its grid.
    GridFill,
    /// What names a group of recipes is no number of a group.
    GroupNumber,
    /// What names a category of recipes is no number of a category.
    CategoryNumber,
    /// The client has no number for the kind of a recipe.
    RecipeKind,
    /// A packet that stops sounds has flags beyond the two that there are.
    SoundFlags,
    /// What names a particle is no number of the client's.
    ParticleNumber,
    /// The stack that a particle shows cannot be read.
    ParticleItem,
    /// What names a block state is no number of a block state.
    BlockState,
    /// A vibration goes neither to a block nor to an entity.
    VibrationSource,
    /// A channel of a colour is infinite, or no number.
    ParticleColor,
}

/// The refusal of a packet behind whose layout so many bytes stand, if it has a layout.
pub open spec fn packet_error(left: Option<nat>) -> TranslateError {
    match left {
        Some(n) => TranslateError::TrailingBytes(n as usize),
        None => TranslateError::Malformed,
    }
}

/// A reading as a step of a translation.
pub fn or_malformed<T>(res: Result<T, ReadingError>) -> (out: Result<T, TranslateError>)
    ensures
        out == match res {
            Ok(value) => Ok::<T, TranslateError>(value),
            Err(_) => Err::<T, TranslateError>(TranslateError::Malformed),
        },
{
    match res {
        Ok(value) => Ok(value),
        Err(_) => Err(TranslateError::Malformed),
    }
}

/// The longest string the protocol carries, in bytes.
pub const MAX_STRING_BYTES: usize = 32767;

pub open spec fn i32_of_bits(bits: u32) -> i32 {
    if bits < 0x8000_0000 {
        bits as i32
    } else {
        (bits - 0x1_0000_0000) as i32
    }
}

pub open spec fn bits_of_i32(value: i32) -> u32 {
    if value >= 0 {
        value as u32
    } else {
        (value + 0x1_0000_0000) as u32
    }
}

pub fn i32_from_bits(bits: u32) -> (value: i32)
    ensures
        value == i32_of_bits(bits),
{
    if bits < 0x8000_0000 {
        bits as i32
    } else {
        (bits as i64 - 0x1_0000_0000) as i32
    }
}

pub fn i32_to_bits(value: i32) -> (bits: u32)
    ensures
        bits == bits_of_i32(value),
{
    if value >= 0 {
        value as u32
    } else {
        (value as i64 + 0x1_0000_0000) as u32
    }
}

pub open spec fn i64_of_bits(bits: u64) -> i64 {
    if bits < 0x8000_0000_0000_0000 {
        bits as i64
    } else {
        (bits - 0x1_0000_0000_0000_0000) as i64
    }
}

pub open spec fn bits_of_i64(value: i64) -> u64 {
    if value >= 0 {
        value as u64
    } else {
        (value + 0x1_0000_0000_0000_0000) as u64
    }
}

pub fn i64_from_bits(bits: u64) -> (value: i64)
    ensures
        value == i64_of_bits(bits),
{
    if bits < 0x8000_0000_0000_0000 {
        bits as i64
    } else {
        (bits as i128 - 0x1_0000_0000_0000_0000) as i64
    }
}

pub fn i64_to_bits(value: i64) -> (bits: u64)
    ensures
        bits == bits_of_i64(value),
{
    if value >= 0 {
        value as u64
    } else {
        (value as i128 + 0x1_0000_0000_0000_0000) as u64
    }
}

// --- fixed width fields --------------------------------------------------

pub open spec fn take_u8(s: Seq<u8>) -> Option<(u8, Seq<u8>)> {
    if s.len() == 0 {
        None
    } else {
        Some((s[0], s.skip(1)))
    }
}

/// Any byte but zero is true.
pub open spec fn take_bool(s: Seq<u8>) -> Option<(bool, Seq<u8>)> {
    if s.len() == 0 {
        None
    } else {
        Some((s[0] != 0, s.skip(1)))
    }
}

pub open spec fn take_u16(s: Seq<u8>) -> Option<(u16, Seq<u8>)> {
    if s.len() < 2 {
        None
    } else {
        Some(((s[0] * 0x100 + s[1]) as u16, s.skip(2)))
    }
}

/// The number that the first four bytes spell, highest byte first.
pub open spec fn be_u32(s: Seq<u8>) -> u32 {
    (s[0] * 0x100_0000 + s[1] * 0x1_0000 + s[2] * 0x100 + s[3]) as u32
}

pub open spec fn take_u32(s: Seq<u8>) -> Option<(u32, Seq<u8>)> {
    if s.len() < 4 {
        None
    } else {
        Some((be_u32(s), s.skip(4)))
    }
}

pub open spec fn take_u64(s: Seq<u8>) -> Option<(u64, Seq<u8>)> {
    if s.len() < 8 {
        None
    } else {
        let high = be_u32(s);
        let low = be_u32(s.skip(4));
        Some(((high * 0x1_0000_0000 + low) as u64, s.skip(8)))
    }
}

pub open spec fn take_i32(s: Seq<u8>) -> Option<(i32, Seq<u8>)> {
    match take_u32(s) {
        Some((bits, rest)) => Some((i32_of_bits(bits), rest)),
        None => None,
    }
}

pub open spec fn take_i64(s: Seq<u8>) -> Option<(i64, Seq<u8>)> {
    match take_u64(s) {
        Some((bits, rest)) => Some((i64_of_bits(bits), rest)),
        None => None,
    }
}

/// The next `n` bytes as they stand.
pub open spec fn take_bytes(s: Seq<u8>, n: int) -> Option<(Seq<u8>, Seq<u8>)> {
    if 0 <= n <= s.len() {
        Some((s.take(n), s.skip(n)))
    } else {
        None
    }
}

pub open spec fn enc_bool(value: bool) -> Seq<u8> {
    seq![if value { 1u8 } else { 0u8 }]
}

pub open spec fn enc_u16(value: u16) -> Seq<u8> {
    seq![(value / 0x100) as u8, (value % 0x100) as u8]
}

pub open spec fn enc_u32(value: u32) -> Seq<u8> {
    seq![
        (value / 0x100_0000) as u8,
        (value / 0x1_0000 % 0x100) as u8,
        (value / 0x100 % 0x100) as u8,
        (value % 0x100) as u8,
    ]
}

pub open spec fn enc_u64(value: u64) -> Seq<u8> {
    enc_u32((value / 0x1_0000_0000) as u32) + enc_u32((value % 0x1_0000_0000) as u32)
}

pub open spec fn enc_i32(value: i32) -> Seq<u8> {
    enc_u32(bits_of_i32(value))
}

pub open spec fn enc_i64(value: i64) -> Seq<u8> {
    enc_u64(bits_of_i64(value))
}

pub fn get_u8(r: &mut &[u8]) -> (res: Result<u8, ReadingError>)
    ensures
        match take_u8(old(r)@) {
            Some((value, rest)) => res == Ok::<u8, ReadingError>(value) && final(r)@ == rest,
            None => res is Err,
        },
{
    let s: &[u8] = *r;
    if s.len() == 0 {
        return Err(ReadingError::Malformed);
    }
    let value: u8 = s[0];
    *r = slice_subrange(s, 1, s.len());
    Ok(value)
}

pub fn get_bool(r: &mut &[u8]) -> (res: Result<bool, ReadingError>)
    ensures
        match take_bool(old(r)@) {
            Some((value, rest)) => res == Ok::<bool, ReadingError>(value) && final(r)@ == rest,
            None => res is Err,
        },
{
    let value: u8 = get_u8(r)?;
    Ok(value != 0)
}

pub fn get_u16(r: &mut &[u8]) -> (res: Result<u16, ReadingError>)
    ensures
        match take_u16(old(r)@) {
            Some((value, rest)) => res == Ok::<u16, ReadingError>(value) && final(r)@ == rest,
            None => res is Err,
        },
{
    let s: &[u8] = *r;
    if s.len() < 2 {
        return Err(ReadingError::Malformed);
    }
    let value: u16 = s[0] as u16 * 0x100 + s[1] as u16;
    *r = slice_subrange(s, 2, s.len());
    Ok(value)
}

pub fn get_u32(r: &mut &[u8]) -> (res: Result<u32, ReadingError>)
    ensures
        match take_u32(old(r)@) {
            Some((value, rest)) => res == Ok::<u32, ReadingError>(value) && final(r)@ == rest,
            None => res is Err,
        },
{
    let s: &[u8] = *r;
    if s.len() < 4 {
        return Err(ReadingError::Malformed);
    }
    let value: u32 = s[0] as u32 * 0x100_0000 + s[1] as u32 * 0x1_0000 + s[2] as u32 * 0x100 + s[3] as u32;
    *r = slice_subrange(s, 4, s.len());
    Ok(value)
}

pub fn get_u64(r: &mut &[u8]) -> (res: Result<u64, ReadingError>)
    ensures
        match take_u64(old(r)@) {
            Some((value, rest)) => res == Ok::<u64, ReadingError>(value) && final(r)@ == rest,
            None => res is Err,
        },
{
    let s: &[u8] = *r;
    if s.len() < 8 {
        return Err(ReadingError::Malformed);
    }
    let high: u32 = get_u32(r)?;
    let low: u32 = get_u32(r)?;
    Ok(high as u64 * 0x1_0000_0000 + low as u64)
}

pub fn get_i32(r: &mut &[u8]) -> (res: Result<i32, ReadingError>)
    ensures
        match take_i32(old(r)@) {
            Some((value, rest)) => res == Ok::<i32, ReadingError>(value) && final(r)@ == rest,
            None => res is Err,
        },
{
    let bits: u32 = get_u32(r)?;
    Ok(i32_from_bits(bits))
}

pub fn get_i64(r: &mut &[u8]) -> (res: Result<i64, ReadingError>)
    ensures
        match take_i64(old(r)@) {
            Some((value, rest)) => res == Ok::<i64, ReadingError>(value) && final(r)@ == rest,
            None => res is Err,
        },
{
    let bits: u64 = get_u64(r)?;
    Ok(i64_from_bits(bits))
}

pub fn get_bytes<'a>(r: &mut &'a [u8], n: usize) -> (res: Result<&'a [u8], ReadingError>)
    ensures
        match take_bytes(old(r)@, n as int) {
            Some((value, rest)) => res is Ok && res->Ok_0@ == value && final(r)@ == rest,
            None => res is Err,
        },
{
    let s: &'a [u8] = *r;
    if s.len() < n {
        return Err(ReadingError::Malformed);
    }
    let value: &'a [u8] = slice_subrange(s, 0, n);
    *r = slice_subrange(s, n, s.len());
    Ok(value)
}

pub fn write_bool(out: &mut Vec<u8>, value: bool)
    ensures
        final(out)@ == old(out)@ + enc_bool(value),
{
    out.push(if value { 1 } else { 0 });
}

pub fn write_u16(out: &mut Vec<u8>, value: u16)
    ensures
        final(out)@ == old(out)@ + enc_u16(value),
{
    out.push((value / 0x100) as u8);
    out.push((value % 0x100) as u8);
}

pub fn write_u32(out: &mut Vec<u8>, value: u32)
    ensures
        final(out)@ == old(out)@ + enc_u32(value),
{
    out.push((value / 0x100_0000) as u8);
    out.push((value / 0x1_0000 % 0x100) as u8);
    out.push((value / 0x100 % 0x100) as u8);
    out.push((value % 0x100) as u8);
}

pub fn write_u64(out: &mut Vec<u8>, value: u64)
    ensures
        final(out)@ == old(out)@ + enc_u64(value),
{
    write_u32(out, (value / 0x1_0000_0000) as u32);
    write_u32(out, (value % 0x1_0000_0000) as u32);
}

pub fn write_i32(out: &mut Vec<u8>, value: i32)
    ensures
        final(out)@ == old(out)@ + enc_i32(value),
{
    write_u32(out, i32_to_bits(value));
}

pub fn write_i64(out: &mut Vec<u8>, value: i64)
    ensures
        final(out)@ == old(out)@ + enc_i64(value),
{
    write_u64(out, i64_to_bits(value));
}

pub fn write_bytes(out: &mut Vec<u8>, bytes: &[u8])
    ensures
        final(out)@ == old(out)@ + bytes@,
{
    out.extend_from_slice(bytes);
}

// --- variable length integers ---------------------------------------------

/// Seven bits a byte, lowest first; a set high bit says that more follow, and
/// at most `left` bytes may.
pub open spec fn take_groups(s: Seq<u8>, left: nat) -> Option<(nat, Seq<u8>)>
    decreases left,
{
    if left == 0 || s.len() == 0 {
        None
    } else if s[0] < 128 {
        Some((s[0] as nat, s.skip(1)))
    } else {
        match take_groups(s.skip(1), (left - 1) as nat) {
            Some((high, rest)) => Some(((s[0] - 128) as nat + 128 * high, rest)),
            None => None,
        }
    }
}

pub open spec fn enc_groups(n: nat) -> Seq<u8>
    decreases n,
{
    if n < 128 {
        seq![n as u8]
    } else {
        seq![(n % 128 + 128) as u8] + enc_groups(n / 128)
    }
}

/// A VarInt of at most five bytes; bits past the thirty-second fall away.
pub open spec fn take_var_int(s: Seq<u8>) -> Option<(i32, Seq<u8>)> {
    match take_groups(s, 5) {
        Some((n, rest)) => Some((i32_of_bits((n % 0x1_0000_0000) as u32), rest)),
        None => None,
    }
}

pub open spec fn enc_var_int(value: i32) -> Seq<u8> {
    enc_groups(bits_of_i32(value) as nat)
}

fn get_groups(r: &mut &[u8], left: u32) -> (res: Result<u64, ReadingError>)
    requires
        left <= 5,
    ensures
        match take_groups(old(r)@, left as nat) {
            Some((value, rest)) => res is Ok && res->Ok_0 as nat == value && final(r)@ == rest,
            None => res is Err,
        },
        res is Ok && left == 0 ==> false,
        res is Ok && left == 1 ==> res->Ok_0 < 0x80,
        res is Ok && left == 2 ==> res->Ok_0 < 0x4000,
        res is Ok && left == 3 ==> res->Ok_0 < 0x20_0000,
        res is Ok && left == 4 ==> res->Ok_0 < 0x1000_0000,
        res is Ok && left == 5 ==> res->Ok_0 < 0x8_0000_0000,
    decreases left,
{
    if left == 0 {
        return Err(ReadingError::Malformed);
    }
    let first: u8 = get_u8(r)?;
    if first < 128 {
        return Ok(first as u64);
    }
    let high: u64 = get_groups(r, left - 1)?;
    Ok((first - 128) as u64 + 128 * high)
}

pub fn get_var_int(r: &mut &[u8]) -> (res: Result<i32, ReadingError>)
    ensures
        match take_var_int(old(r)@) {
            Some((value, rest)) => res == Ok::<i32, ReadingError>(value) && final(r)@ == rest,
            None => res is Err,
        },
{
    let n: u64 = get_groups(r, 5)?;
    Ok(i32_from_bits((n % 0x1_0000_0000) as u32))
}

pub fn write_var_int(out: &mut Vec<u8>, value: i32)
    ensures
        final(out)@ == old(out)@ + enc_var_int(value),
{
    let mut n: u32 = i32_to_bits(value);
    let ghost all = n as nat;
    while n >= 128
        invariant
            out@ + enc_groups(n as nat) == old(out)@ + enc_groups(all),
        decreases n,
    {
        let ghost before = out@;
        out.push((n % 128 + 128) as u8);
        proof {
            assert(before + (seq![(n % 128 + 128) as u8] + enc_groups((n / 128) as nat))
                =~= before.push((n % 128 + 128) as u8) + enc_groups((n / 128) as nat));
        }
        n = n / 128;
    }
    out.push(n as u8);
    assert(out@ =~= old(out)@ + enc_groups(all));
}

pub fn var_int_bytes(value: i32) -> (res: Vec<u8>)
    ensures
        res@ == enc_var_int(value),
{
    let mut out: Vec<u8> = Vec::new();
    write_var_int(&mut out, value);
    assert(out@ =~= enc_var_int(value));
    out
}

/// A VarLong of at most ten bytes; bits past the sixty-fourth fall away.
pub open spec fn take_var_long(s: Seq<u8>) -> Option<(i64, Seq<u8>)> {
    match take_groups(s, 10) {
        Some((n, rest)) => Some((i64_of_bits((n % 0x1_0000_0000_0000_0000) as u64), rest)),
        None => None,
    }
}

#[verifier::spinoff_prover]
#[verifier::rlimit(60)]
fn get_long_groups(r: &mut &[u8], left: u32) -> (res: Result<u64, ReadingError>)
    ensures
        match take_groups(old(r)@, left as nat) {
            Some((value, rest)) => res is Ok && res->Ok_0 as nat == value % 0x1_0000_0000_0000_0000 && final(r)@
                == rest,
            None => res is Err,
        },
    decreases left,
{
    if left == 0 {
        return Err(ReadingError::Malformed);
    }
    let first: u8 = get_u8(r)?;
    if first < 128 {
        return Ok(first as u64);
    }
    let high: u64 = get_long_groups(r, left - 1)?;
    Ok((first - 128) as u64 + 128 * (high % 0x200_0000_0000_0000))
}

pub fn get_var_long(r: &mut &[u8]) -> (res: Result<i64, ReadingError>)
    ensures
        match take_var_long(old(r)@) {
            Some((value, rest)) => res == Ok::<i64, ReadingError>(value) && final(r)@ == rest,
            None => res is Err,
        },
{
    let n: u64 = get_long_groups(r, 10)?;
    Ok(i64_from_bits(n))
}

/// A length, cut to the width of the field.
pub open spec fn enc_len(n: nat) -> Seq<u8> {
    enc_var_int(i32_of_bits((n % 0x1_0000_0000) as u32))
}

pub fn write_len(out: &mut Vec<u8>, n: usize)
    ensures
        final(out)@ == old(out)@ + enc_len(n as nat),
{
    write_var_int(out, i32_from_bits((n as u64 % 0x1_0000_0000) as u32));
}

// --- strings and identifiers ----------------------------------------------

/// The bytes of a literal.
pub open spec fn key(text: &str) -> Seq<u8> {
    vstd::utf8::encode_utf8(text@)
}

pub fn same_bytes(a: &[u8], b: &[u8]) -> (res: bool)
    ensures
        res == (a@ == b@),
{
    if a.len() != b.len() {
        return false;
    }
    let mut i: usize = 0;
    while i < a.len()
        invariant
            i <= a.len(),
            a.len() == b.len(),
            forall|j: int| 0 <= j < i ==> a@[j] == b@[j],
        decreases a.len() - i,
    {
        if a[i] != b[i] {
            return false;
        }
        i = i + 1;
    }
    assert(a@ =~= b@);
    true
}

/// Whether `bytes` is UTF-8, by `core::str::from_utf8`: it succeeds on the byte
/// strings that are valid UTF-8 and on no others.
#[verifier::external_body]
fn is_utf8(bytes: &[u8]) -> (res: bool)
    ensures
        res == vstd::utf8::valid_utf8(bytes@),
{
    core::str::from_utf8(bytes).is_ok()
}

/// A string: its length in bytes as a VarInt, then that many bytes of UTF-8.
pub open spec fn take_str(s: Seq<u8>) -> Option<(Seq<u8>, Seq<u8>)> {
    match take_var_int(s) {
        Some((n, rest)) => if n <= MAX_STRING_BYTES && 0 <= n <= rest.len() && vstd::utf8::valid_utf8(
            rest.take(n as int),
        ) {
            Some((rest.take(n as int), rest.skip(n as int)))
        } else {
            None
        },
        None => None,
    }
}

pub open spec fn enc_str(text: Seq<u8>) -> Seq<u8> {
    enc_len(text.len()) + text
}

pub fn get_str<'a>(r: &mut &'a [u8]) -> (res: Result<&'a [u8], ReadingError>)
    ensures
        match take_str(old(r)@) {
            Some((value, rest)) => res is Ok && res->Ok_0@ == value && final(r)@ == rest,
            None => res is Err,
        },
{
    let n: i32 = get_var_int(r)?;
    if n < 0 || n > 32767 {
        return Err(ReadingError::Malformed);
    }
    let text: &'a [u8] = get_bytes(r, n as usize)?;
    if is_utf8(text) {
        Ok(text)
    } else {
        Err(ReadingError::Malformed)
    }
}

pub fn write_str(out: &mut Vec<u8>, text: &[u8])
    ensures
        final(out)@ == old(out)@ + enc_str(text@),
{
    write_len(out, text.len());
    out.extend_from_slice(text);
}

// --- laws -------------------------------------------------------------------

proof fn lemma_groups_round_trip(n: nat, left: nat, bound: nat, rest: Seq<u8>)
    requires
        n < bound,
        left >= 1,
        bound == vstd::arithmetic::power::pow(128, left),
    ensures
        take_groups(enc_groups(n) + rest, left) == Some((n, rest)),
    decreases left,
{
    let s = enc_groups(n) + rest;
    vstd::arithmetic::power::lemma_pow1(128);
    if n < 128 {
        assert(s.skip(1) =~= rest);
    } else {
        assert(left >= 2);
        let smaller = vstd::arithmetic::power::pow(128, (left - 1) as nat);
        assert(bound == 128 * smaller) by {
            reveal(vstd::arithmetic::power::pow);
        }
        vstd::arithmetic::power::lemma_pow_positive(128, (left - 1) as nat);
        assert(s.skip(1) =~= enc_groups(n / 128) + rest);
        lemma_groups_round_trip(n / 128, (left - 1) as nat, smaller as nat, rest);
        assert(s[0] == (n % 128 + 128) as u8);
    }
}

/// A VarInt that was written is read back, with what follows it untouched.
pub proof fn var_int_round_trip(value: i32, rest: Seq<u8>)
    ensures
        take_var_int(enc_var_int(value) + rest) == Some((value, rest)),
{
    let n = bits_of_i32(value) as nat;
    assert(vstd::arithmetic::power::pow(128, 5) == 0x8_0000_0000) by {
        reveal_with_fuel(vstd::arithmetic::power::pow, 6);
    }
    lemma_groups_round_trip(n, 5, 0x8_0000_0000, rest);
}

/// A string that was written is read back, with what follows it untouched.
pub proof fn str_round_trip(text: Seq<u8>, rest: Seq<u8>)
    requires
        text.len() <= MAX_STRING_BYTES,
        vstd::utf8::valid_utf8(text),
    ensures
        take_str(enc_str(text) + rest) == Some((text, rest)),
{
    assert(i32_of_bits((text.len() % 0x1_0000_0000) as u32) == text.len() as i32);
    assert(enc_str(text) + rest =~= enc_var_int(text.len() as i32) + (text + rest));
    var_int_round_trip(text.len() as i32, text + rest);
    assert((text + rest).take(text.len() as int) =~= text);
    assert((text + rest).skip(text.len() as int) =~= rest);
}

/// A 32-bit field that was written is read back, with what follows it untouched.
pub proof fn u32_round_trip(value: u32, rest: Seq<u8>)
    ensures
        take_u32(enc_u32(value) + rest) == Some((value, rest)),
{
    let s = enc_u32(value) + rest;
    assert(s.skip(4) =~= rest);
    assert(s[0] == (value / 0x100_0000) as u8);
    assert(s[1] == (value / 0x1_0000 % 0x100) as u8);
    assert(s[2] == (value / 0x100 % 0x100) as u8);
    assert(s[3] == (value % 0x100) as u8);
}

/// A 64-bit field that was written is read back, with what follows it untouched.
pub proof fn u64_round_trip(value: u64, rest: Seq<u8>)
    ensures
        take_u64(enc_u64(value) + rest) == Some((value, rest)),
{
    let high = (value / 0x1_0000_0000) as u32;
    let low = (value % 0x1_0000_0000) as u32;
    let s = enc_u64(value) + rest;
    assert(s =~= enc_u32(high) + (enc_u32(low) + rest));
    u32_round_trip(high, enc_u32(low) + rest);
    u32_round_trip(low, rest);
    assert(s.skip(4) =~= enc_u32(low) + rest);
    assert(s.skip(8) =~= rest);
}

/// An int reads back as it was written.
pub proof fn i32_round_trip(value: i32, rest: Seq<u8>)
    ensures
        take_i32(enc_i32(value) + rest) == Some((value, rest)),
{
    u32_round_trip(bits_of_i32(value), rest);
}

/// A length reads back as it was written.
pub proof fn len_round_trip(n: nat, rest: Seq<u8>)
    requires
        n <= i32::MAX,
    ensures
        take_var_int(enc_len(n) + rest) == Some((n as i32, rest)),
{
    assert(i32_of_bits((n % 0x1_0000_0000) as u32) == n);
    var_int_round_trip(n as i32, rest);
}

// --- more bytes behind ---------------------------------------------------------------------------

proof fn lemma_groups_extend(s: Seq<u8>, left: nat, more: Seq<u8>)
    ensures
        take_groups(s, left) matches Some((n, rest)) ==> take_groups(s + more, left) == Some((n, rest + more)),
    decreases left,
{
    if left > 0 && s.len() > 0 {
        assert((s + more).skip(1) =~= s.skip(1) + more);
        lemma_groups_extend(s.skip(1), (left - 1) as nat, more);
    }
}

/// Bytes behind a VarInt do not change what is read.
pub proof fn var_ints_extend(s: Seq<u8>, more: Seq<u8>)
    ensures
        take_var_int(s) matches Some((n, rest)) ==> take_var_int(s + more) == Some((n, rest + more)),
{
    lemma_groups_extend(s, 5, more);
}

/// Bytes behind a number of fixed width, or behind a run of bytes, do not change what
/// is read.
pub proof fn numbers_extend(s: Seq<u8>, more: Seq<u8>, n: int)
    ensures
        take_u8(s) matches Some((v, rest)) ==> take_u8(s + more) == Some((v, rest + more)),
        take_bool(s) matches Some((v, rest)) ==> take_bool(s + more) == Some((v, rest + more)),
        take_u16(s) matches Some((v, rest)) ==> take_u16(s + more) == Some((v, rest + more)),
        take_i32(s) matches Some((v, rest)) ==> take_i32(s + more) == Some((v, rest + more)),
        take_u64(s) matches Some((v, rest)) ==> take_u64(s + more) == Some((v, rest + more)),
        take_bytes(s, n) matches Some((v, rest)) ==> take_bytes(s + more, n) == Some((v, rest + more)),
{
    if s.len() >= 1 {
        assert((s + more).skip(1) =~= s.skip(1) + more);
    }
    if s.len() >= 2 {
        assert((s + more).skip(2) =~= s.skip(2) + more);
    }
    if s.len() >= 4 {
        assert((s + more).skip(4) =~= s.skip(4) + more);
    }
    if s.len() >= 8 {
        assert((s + more).skip(8) =~= s.skip(8) + more);
        assert((s + more).skip(4) =~= s.skip(4) + more);
    }
    if 0 <= n <= s.len() {
        assert((s + more).skip(n) =~= s.skip(n) + more);
        assert((s + more).take(n) =~= s.take(n));
    }
}

// --- pieces one behind the other -------------------------------------------------------------------

/// Two pieces with what follows them, split behind the first.
pub proof fn two_pieces(a: Seq<u8>, b: Seq<u8>, rest: Seq<u8>)
    ensures
        a + b + rest == a + (b + rest),
{
    assert(a + b + rest =~= a + (b + rest));
}

/// Three pieces with what follows them, split behind each.
pub proof fn three_pieces(a: Seq<u8>, b: Seq<u8>, c: Seq<u8>, rest: Seq<u8>)
    ensures
        a + b + c + rest == a + (b + (c + rest)),
{
    assert(a + b + c + rest =~= a + (b + (c + rest)));
}

/// Four pieces with what follows them, split behind each.
pub proof fn four_pieces(a: Seq<u8>, b: Seq<u8>, c: Seq<u8>, d: Seq<u8>, rest: Seq<u8>)
    ensures
        a + b + c + d + rest == a + (b + (c + (d + rest))),
{
    assert(a + b + c + d + rest =~= a + (b + (c + (d + rest))));
}

/// Five pieces with what follows them, split behind each.
pub proof fn five_pieces(a: Seq<u8>, b: Seq<u8>, c: Seq<u8>, d: Seq<u8>, e: Seq<u8>, rest: Seq<u8>)
    ensures
        a + b + c + d + e + rest == a + (b + (c + (d + (e + rest)))),
{
    assert(a + b + c + d + e + rest =~= a + (b + (c + (d + (e + rest)))));
}

/// Nothing in front of or behind a piece changes it.
pub proof fn no_piece(a: Seq<u8>)
    ensures
        a + Seq::<u8>::empty() == a,
        Seq::<u8>::empty() + a == a,
{
    assert(a + Seq::<u8>::empty() =~= a);
    assert(Seq::<u8>::empty() + a =~= a);
}

} // verus!
