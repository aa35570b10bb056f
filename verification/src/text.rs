//! Names and other small texts, as the bytes that travel.
use vstd::prelude::*;
use vstd::slice::slice_subrange;
use vstd::slice::slice_to_vec;
use crate::wire;

verus! {

/// `text` without a leading `prefix`.
pub open spec fn stripped(text: Seq<u8>, prefix: Seq<u8>) -> Seq<u8> {
    if prefix.is_prefix_of(text) {
        text.skip(prefix.len() as int)
    } else {
        text
    }
}

/// A name without the default namespace.
pub open spec fn bare(name: Seq<u8>) -> Seq<u8> {
    stripped(name, wire::key("minecraft:"))
}

/// A bare name in the default namespace.
pub open spec fn namespaced(name: Seq<u8>) -> Seq<u8> {
    wire::key("minecraft:") + name
}

pub fn starts_with(text: &[u8], prefix: &[u8]) -> (res: bool)
    ensures
        res == prefix@.is_prefix_of(text@),
{
    if text.len() < prefix.len() {
        return false;
    }
    wire::same_bytes(slice_subrange(text, 0, prefix.len()), prefix)
}

/// Whether `text` ends with `suffix`.
pub open spec fn ends(text: Seq<u8>, suffix: Seq<u8>) -> bool {
    text.len() >= suffix.len() && text.skip(text.len() - suffix.len()) == suffix
}

pub fn ends_with(text: &[u8], suffix: &[u8]) -> (res: bool)
    ensures
        res == ends(text@, suffix@),
{
    if text.len() < suffix.len() {
        return false;
    }
    wire::same_bytes(slice_subrange(text, text.len() - suffix.len(), text.len()), suffix)
}

pub fn strip_prefix<'a>(text: &'a [u8], prefix: &[u8]) -> (res: &'a [u8])
    ensures
        res@ == stripped(text@, prefix@),
{
    if starts_with(text, prefix) {
        slice_subrange(text, prefix.len(), text.len())
    } else {
        text
    }
}

pub fn bare_name<'a>(name: &'a [u8]) -> (res: &'a [u8])
    ensures
        res@ == bare(name@),
{
    strip_prefix(name, "minecraft:".as_bytes())
}

pub fn concat(a: &[u8], b: &[u8]) -> (res: Vec<u8>)
    ensures
        res@ == a@ + b@,
{
    let mut out: Vec<u8> = slice_to_vec(a);
    out.extend_from_slice(b);
    out
}

pub fn with_namespace(name: &[u8]) -> (res: Vec<u8>)
    ensures
        res@ == namespaced(name@),
{
    concat("minecraft:".as_bytes(), name)
}

pub fn contains_byte(text: &[u8], wanted: u8) -> (res: bool)
    ensures
        res == text@.contains(wanted),
{
    let mut i: usize = 0;
    while i < text.len()
        invariant
            i <= text.len(),
            forall|j: int| 0 <= j < i ==> text@[j] != wanted,
        decreases text.len() - i,
    {
        if text[i] == wanted {
            assert(text@.contains(wanted));
            return true;
        }
        i = i + 1;
    }
    false
}

// --- numbers ----------------------------------------------------------------------

/// A digit of base ten or sixteen.
pub open spec fn digit(n: int) -> u8 {
    if n < 10 {
        (n + 48) as u8
    } else {
        (n + 87) as u8
    }
}

pub open spec fn decimal_nat(n: nat) -> Seq<u8>
    decreases n,
{
    if n < 10 {
        seq![digit(n as int)]
    } else {
        decimal_nat(n / 10).push(digit((n % 10) as int))
    }
}

/// A number in base ten.
pub open spec fn decimal(n: int) -> Seq<u8> {
    if n < 0 {
        seq![45u8] + decimal_nat((-n) as nat)
    } else {
        decimal_nat(n as nat)
    }
}

fn push_decimal(out: &mut Vec<u8>, n: u64)
    ensures
        final(out)@ == old(out)@ + decimal_nat(n as nat),
    decreases n,
{
    if n >= 10 {
        push_decimal(out, n / 10);
    }
    out.push((n % 10) as u8 + 48);
}

pub fn write_decimal(out: &mut Vec<u8>, n: i32)
    ensures
        final(out)@ == old(out)@ + decimal(n as int),
{
    if n < 0 {
        out.push(45);
        push_decimal(out, (-(n as i64)) as u64);
    } else {
        push_decimal(out, n as u64);
    }
}

/// A number in base ten, with zeros in front where it has fewer than `width`
/// digits.
pub open spec fn wide(n: nat, width: nat) -> Seq<u8>
    decreases n + width,
{
    if n < 10 && width <= 1 {
        seq![digit(n as int)]
    } else {
        wide(
            n / 10,
            if width > 1 {
                (width - 1) as nat
            } else {
                1
            },
        ).push(digit((n % 10) as int))
    }
}

pub fn write_wide(out: &mut Vec<u8>, n: u32, width: u32)
    requires
        width >= 1,
    ensures
        final(out)@ == old(out)@ + wide(n as nat, width as nat),
    decreases n + width,
{
    if n >= 10 || width > 1 {
        write_wide(out, n / 10, if width > 1 { width - 1 } else { 1 });
    }
    out.push((n % 10) as u8 + 48);
}

/// The number that the digits from `i` on make behind `value`.
pub open spec fn digits_from(text: Seq<u8>, i: int, value: int) -> Option<int>
    decreases text.len() - i,
{
    if i < 0 || i >= text.len() {
        Some(value)
    } else if 48 <= text[i] <= 57 {
        digits_from(text, i + 1, value * 10 + (text[i] - 48))
    } else {
        None
    }
}

/// The number that a text spells: a sign or none, and at least one digit.
pub open spec fn parsed(text: Seq<u8>) -> Option<int> {
    if text.len() == 0 {
        None
    } else if text[0] == 43 || text[0] == 45 {
        if text.len() == 1 {
            None
        } else {
            match digits_from(text, 1, 0) {
                Some(value) => Some(
                    if text[0] == 45 {
                        -value
                    } else {
                        value
                    },
                ),
                None => None,
            }
        }
    } else {
        digits_from(text, 0, 0)
    }
}

proof fn lemma_digits_grow(text: Seq<u8>, i: int, value: int)
    requires
        0 <= value,
        0 <= i,
    ensures
        digits_from(text, i, value) matches Some(n) ==> n >= value,
    decreases text.len() - i,
{
    if i < text.len() && 48 <= text[i] <= 57 {
        lemma_digits_grow(text, i + 1, value * 10 + (text[i] - 48));
    }
}

/// The number that a text spells, where it is neither below zero nor too large.
#[verifier::loop_isolation(false)]
pub fn parse_id(text: &[u8]) -> (res: Option<i32>)
    ensures
        res == match parsed(text@) {
            Some(n) => if 0 <= n <= i32::MAX {
                Some(n as i32)
            } else {
                None
            },
            None => None::<i32>,
        },
{
    if text.len() == 0 {
        return None;
    }
    let signed: bool = text[0] == 43 || text[0] == 45;
    if signed && text.len() == 1 {
        return None;
    }
    let start: usize = if signed { 1 } else { 0 };
    let mut value: u64 = 0;
    let mut i: usize = start;
    while i < text.len()
        invariant
            start <= i <= text.len(),
            value <= 0x8000_0000,
            digits_from(text@, start as int, 0) == digits_from(text@, i as int, value as int),
        decreases text.len() - i,
    {
        if text[i] < 48 || text[i] > 57 {
            return None;
        }
        let next: u64 = value * 10 + (text[i] as u64 - 48);
        if next > 0x8000_0000 {
            proof {
                lemma_digits_grow(text@, i + 1, next as int);
            }
            return None;
        }
        value = next;
        i = i + 1;
    }
    if text[0] == 45 {
        if value == 0 {
            Some(0)
        } else {
            None
        }
    } else if value <= 0x7fff_ffff {
        Some(value as i32)
    } else {
        None
    }
}

proof fn lemma_digits_push(text: Seq<u8>, d: u8, i: int, value: int)
    requires
        48 <= d <= 57,
        0 <= i <= text.len(),
    ensures
        digits_from(text.push(d), i, value) == match digits_from(text, i, value) {
            Some(n) => Some(n * 10 + (d - 48)),
            None => None,
        },
    decreases text.len() - i,
{
    let longer = text.push(d);
    if i < text.len() {
        assert(longer[i] == text[i]);
        if 48 <= text[i] <= 57 {
            lemma_digits_push(text, d, i + 1, value * 10 + (text[i] - 48));
        }
    } else {
        assert(longer[i] == d);
        assert(digits_from(longer, i + 1, value * 10 + (d - 48)) == Some(value * 10 + (d - 48)));
    }
}

proof fn lemma_wide_digits(n: nat, width: nat)
    ensures
        wide(n, width).len() > 0,
        48 <= wide(n, width)[0] <= 57,
        digits_from(wide(n, width), 0, 0) == Some(n as int),
    decreases n + width,
{
    if n < 10 && width <= 1 {
        let text = wide(n, width);
        assert(digits_from(text, 1, n as int) == Some(n as int));
    } else {
        let next = if width > 1 {
            (width - 1) as nat
        } else {
            1
        };
        lemma_wide_digits(n / 10, next);
        lemma_digits_push(wide(n / 10, next), digit((n % 10) as int), 0, 0);
    }
}

/// A number stands in no namespace.
pub proof fn lemma_wide_is_bare(n: nat, width: nat)
    ensures
        bare(wide(n, width)) == wide(n, width),
{
    lemma_wide_digits(n, width);
    let prefix = wire::key("minecraft:");
    reveal_strlit("minecraft:");
    assert("minecraft:"@[0] == 'm');
    assert(prefix == vstd::utf8::encode_scalar('m' as u32) + vstd::utf8::encode_utf8("minecraft:"@.drop_first()));
    assert((109u32 & 0x7f) as u8 == 109u8) by (bit_vector);
    assert(prefix.len() > 0 && prefix[0] == 109);
}

/// A number that was written with zeros in front is read back.
pub proof fn wide_numbers_are_read_back(n: nat, width: nat)
    ensures
        parsed(wide(n, width)) == Some(n as int),
{
    lemma_wide_digits(n, width);
}

/// The `n` lowest base-sixteen digits of a number.
pub open spec fn hex_digits(value: nat, n: nat) -> Seq<u8>
    decreases n,
{
    if n == 0 {
        seq![]
    } else {
        hex_digits(value / 16, (n - 1) as nat).push(digit((value % 16) as int))
    }
}

/// An identifier of two halves in its usual spelling: five groups of base-sixteen
/// digits, of eight, four, four, four and twelve digits, with hyphens between
/// them.
pub open spec fn hyphenated(high: u64, low: u64) -> Seq<u8> {
    hex_digits((high / 0x1_0000_0000) as nat, 8) + seq![45u8] + hex_digits(
        (high / 0x1_0000 % 0x1_0000) as nat,
        4,
    ) + seq![45u8] + hex_digits((high % 0x1_0000) as nat, 4) + seq![45u8] + hex_digits(
        (low / 0x1_0000_0000_0000) as nat,
        4,
    ) + seq![45u8] + hex_digits((low % 0x1_0000_0000_0000) as nat, 12)
}

/// `uuid::Uuid::from_u64_pair` and the text that `Uuid` displays: the hyphenated
/// form in lower case, the high half first.
#[verifier::external_body]
pub(crate) fn uuid_text(high: u64, low: u64) -> (res: Vec<u8>)
    ensures
        res@ == hyphenated(high, low),
{
    uuid::Uuid::from_u64_pair(high, low).to_string().into_bytes()
}

/// Bytes in base sixteen, two digits each.
pub open spec fn hex_of(bytes: Seq<u8>) -> Seq<u8>
    decreases bytes.len(),
{
    if bytes.len() == 0 {
        seq![]
    } else {
        hex_of(bytes.drop_last()) + hex_digits(bytes.last() as nat, 2)
    }
}

fn hex_digit(n: u8) -> (res: u8)
    requires
        n < 16,
    ensures
        res == digit(n as int),
{
    if n < 10 {
        48 + n
    } else {
        87 + n
    }
}

/// The spelling of bytes in base sixteen, for logs.
#[verifier::loop_isolation(false)]
pub fn hex(bytes: &[u8]) -> (res: Vec<u8>)
    ensures
        res@ == hex_of(bytes@),
{
    let mut out: Vec<u8> = Vec::new();
    let mut i: usize = 0;
    assert(bytes@.take(0) =~= seq![]);
    while i < bytes.len()
        invariant
            i <= bytes.len(),
            out@ == hex_of(bytes@.take(i as int)),
        decreases bytes.len() - i,
    {
        let byte: u8 = bytes[i];
        let ghost before = out@;
        out.push(hex_digit(byte / 16));
        out.push(hex_digit(byte % 16));
        proof {
            reveal_with_fuel(hex_digits, 3);
            let next = bytes@.take(i + 1);
            assert(next.drop_last() =~= bytes@.take(i as int));
            assert(hex_digits(byte as nat, 2) =~= seq![digit(byte as int / 16), digit(byte as int % 16)]);
            assert(out@ =~= before + hex_digits(byte as nat, 2));
        }
        i = i + 1;
    }
    assert(bytes@.take(i as int) =~= bytes@);
    out
}

/// Bytes below 128 are UTF-8.
pub proof fn lemma_ascii_is_utf8(text: Seq<u8>)
    requires
        forall|i: int| 0 <= i < text.len() ==> #[trigger] text[i] < 128,
    ensures
        vstd::utf8::valid_utf8(text),
    decreases text.len(),
{
    if text.len() > 0 {
        let first = text[0];
        assert((first & 0x7f) as u32 <= 0x7f) by (bit_vector);
        assert(vstd::utf8::valid_first_scalar(text));
        lemma_ascii_is_utf8(vstd::utf8::pop_first_scalar(text));
    }
}

/// A number with zeros in front is short, and of digits alone.
pub proof fn lemma_wide_is_short(n: nat, width: nat, limit: nat)
    requires
        width <= limit,
        n < vstd::arithmetic::power::pow(10, limit),
        0 < limit,
    ensures
        wide(n, width).len() <= limit,
        forall|i: int| 0 <= i < wide(n, width).len() ==> 48 <= #[trigger] wide(n, width)[i] <= 57,
    decreases limit,
{
    reveal_with_fuel(vstd::arithmetic::power::pow, 2);
    if n >= 10 || width > 1 {
        let next = if width > 1 {
            (width - 1) as nat
        } else {
            1
        };
        if limit == 1 {
            assert(vstd::arithmetic::power::pow(10, 0) == 1);
        }
        lemma_wide_is_short(n / 10, next, (limit - 1) as nat);
    }
}

} // verus!
