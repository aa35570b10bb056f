//! Hashes of NBT values, as clients compute them for the components of a stack.
use vstd::prelude::*;
use crc_fast::CrcAlgorithm;
use crc_fast::Digest;
use crate::nbt;
use crate::nbt::Entry;
use crate::nbt::NbtCompound;
use crate::nbt::NbtTag;
use crate::nbt::Tag;
use crate::order;
use crate::wire;

verus! {

/// The remainder of a CRC after `n` more zero bits, lowest bit first, by Castagnoli's
/// polynomial.
pub open spec fn crc_bits(remainder: u32, n: nat) -> u32
    decreases n,
{
    if n == 0 {
        remainder
    } else if remainder & 1 == 1 {
        crc_bits((remainder >> 1) ^ 0x82f6_3b78, (n - 1) as nat)
    } else {
        crc_bits(remainder >> 1, (n - 1) as nat)
    }
}

pub open spec fn crc_bytes(remainder: u32, bytes: Seq<u8>) -> u32
    decreases bytes.len(),
{
    if bytes.len() == 0 {
        remainder
    } else {
        crc_bytes(crc_bits(remainder ^ (bytes[0] as u32), 8), bytes.skip(1))
    }
}

/// The CRC-32 of Castagnoli's polynomial.
#[verifier::opaque]
pub open spec fn castagnoli(bytes: Seq<u8>) -> u32 {
    crc_bytes(0xffff_ffff, bytes) ^ 0xffff_ffff
}

/// `crc_fast::Digest` with the algorithm `Crc32Iscsi`, fed with all of `bytes` at
/// once: the CRC-32 with the polynomial 0x1edc6f41, lowest bit first in bytes and
/// result, which starts from all ones and is inverted at the end.
#[verifier::external_body]
fn checksum(bytes: &[u8]) -> (res: u32)
    ensures
        res == castagnoli(bytes@),
{
    let mut digest = Digest::new(CrcAlgorithm::Crc32Iscsi);
    digest.update(bytes);
    digest.finalize() as u32
}

/// A checksum as the signed number that travels.
pub open spec fn crc(bytes: Seq<u8>) -> i32 {
    wire::i32_of_bits(castagnoli(bytes))
}

pub fn crc32c(bytes: &[u8]) -> (res: i32)
    ensures
        res == crc(bytes@),
{
    wire::i32_from_bits(checksum(bytes))
}

// --- little-endian numbers -------------------------------------------------------------

pub open spec fn le16(n: u16) -> Seq<u8> {
    seq![(n % 256) as u8, (n / 256) as u8]
}

pub open spec fn le32(n: u32) -> Seq<u8> {
    seq![
        (n % 256) as u8,
        (n / 256 % 256) as u8,
        (n / 0x1_0000 % 256) as u8,
        (n / 0x100_0000) as u8,
    ]
}

fn push_le16(out: &mut Vec<u8>, n: u16)
    ensures
        final(out)@ == old(out)@ + le16(n),
{
    out.push((n % 256) as u8);
    out.push((n / 256) as u8);
}

fn push_le32(out: &mut Vec<u8>, n: u32)
    ensures
        final(out)@ == old(out)@ + le32(n),
{
    out.push((n % 256) as u8);
    out.push((n / 256 % 256) as u8);
    out.push((n / 0x1_0000 % 256) as u8);
    out.push((n / 0x100_0000) as u8);
}

// --- texts -------------------------------------------------------------------------------

/// The UTF-16 code units of a text in UTF-8.
pub open spec fn units(text: Seq<u8>) -> Seq<u16>
    decreases text.len(),
{
    if text.len() == 0 {
        seq![]
    } else if nbt::is_supplementary(text) {
        let n = nbt::supplementary(text[0], text[1], text[2], text[3]);
        seq![(0xd800 + n / 0x400) as u16, (0xdc00 + n % 0x400) as u16] + units(text.skip(4))
    } else if text[0] >= 0xe0 && text.len() >= 3 {
        seq![(text[0] % 16 * 0x1000 + text[1] % 64 * 0x40 + text[2] % 64) as u16] + units(text.skip(3))
    } else if text[0] >= 0x80 && text.len() >= 2 {
        seq![(text[0] % 32 * 0x40 + text[1] % 64) as u16] + units(text.skip(2))
    } else {
        seq![text[0] as u16] + units(text.skip(1))
    }
}

pub open spec fn units_bytes(units: Seq<u16>) -> Seq<u8>
    decreases units.len(),
{
    if units.len() == 0 {
        seq![]
    } else {
        units_bytes(units.drop_last()) + le16(units.last())
    }
}

pub open spec fn string_hash(text: Seq<u8>) -> Option<i32> {
    let units = units(text);
    if units.len() <= u32::MAX {
        Some(crc(seq![12u8] + le32(units.len() as u32) + units_bytes(units)))
    } else {
        None
    }
}

#[verifier::loop_isolation(false)]
fn encode_utf16(text: &[u8]) -> (res: Vec<u16>)
    ensures
        res@ == units(text@),
{
    let mut out: Vec<u16> = Vec::new();
    let mut i: usize = 0;
    assert(text@.skip(0) =~= text@);
    while i < text.len()
        invariant
            i <= text.len(),
            units(text@) == out@ + units(text@.skip(i as int)),
        decreases text.len() - i,
    {
        let ghost left = text@.skip(i as int);
        let ghost before = out@;
        let rest: usize = text.len() - i;
        let a: u8 = text[i];
        if rest >= 4 && a >= 0xf0 && a <= 0xf4 && text[i + 1] >= 0x80 && text[i + 1] < 0xc0 && text[i + 2] >= 0x80
            && text[i + 2] < 0xc0 && text[i + 3] >= 0x80 && text[i + 3] < 0xc0 {
            let scalar: u32 = (a as u32 - 0xf0) * 0x4_0000 + (text[i + 1] as u32 - 0x80) * 0x1000 + (text[i
                + 2] as u32 - 0x80) * 0x40 + (text[i + 3] as u32 - 0x80);
            if scalar >= 0x1_0000 && scalar < 0x11_0000 {
                let n: u32 = scalar - 0x1_0000;
                assert(nbt::is_supplementary(left));
                out.push((0xd800 + n / 0x400) as u16);
                out.push((0xdc00 + n % 0x400) as u16);
                i = i + 4;
                assert(left.skip(4) =~= text@.skip(i as int));
                assert(out@ + units(left.skip(4)) =~= before + units(left));
                continue;
            }
        }
        assert(!nbt::is_supplementary(left));
        if a >= 0xe0 && rest >= 3 {
            out.push(
                (a as u32 % 16 * 0x1000 + text[i + 1] as u32 % 64 * 0x40 + text[i + 2] as u32 % 64) as u16,
            );
            i = i + 3;
            assert(left.skip(3) =~= text@.skip(i as int));
            assert(out@ + units(left.skip(3)) =~= before + units(left));
        } else if a >= 0x80 && rest >= 2 {
            out.push((a as u32 % 32 * 0x40 + text[i + 1] as u32 % 64) as u16);
            i = i + 2;
            assert(left.skip(2) =~= text@.skip(i as int));
            assert(out@ + units(left.skip(2)) =~= before + units(left));
        } else {
            out.push(a as u16);
            i = i + 1;
            assert(left.skip(1) =~= text@.skip(i as int));
            assert(out@ + units(left.skip(1)) =~= before + units(left));
        }
    }
    assert(text@.skip(i as int) =~= seq![]);
    assert(out@ =~= units(text@));
    out
}

#[verifier::loop_isolation(false)]
pub fn hash_string(text: &[u8]) -> (res: Option<i32>)
    ensures
        res == string_hash(text@),
{
    let units: Vec<u16> = encode_utf16(text);
    if units.len() as u64 > 0xffff_ffff {
        return None;
    }
    let mut bytes: Vec<u8> = Vec::new();
    bytes.push(12);
    push_le32(&mut bytes, units.len() as u32);
    let ghost head = bytes@;
    assert(head =~= seq![12u8] + le32(units@.len() as u32));
    let mut i: usize = 0;
    assert(units@.take(0) =~= seq![]);
    while i < units.len()
        invariant
            i <= units.len(),
            bytes@ == head + units_bytes(units@.take(i as int)),
        decreases units.len() - i,
    {
        push_le16(&mut bytes, units[i]);
        let ghost next = units@.take(i + 1);
        assert(next.drop_last() =~= units@.take(i as int));
        assert(bytes@ =~= head + units_bytes(next));
        i = i + 1;
    }
    assert(units@.take(units@.len() as int) =~= units@);
    Some(crc32c(bytes.as_slice()))
}

// --- numbers and arrays ---------------------------------------------------------------------

/// Elements of `width` bytes, each with its bytes turned round.
pub open spec fn turned(s: Seq<u8>, width: nat) -> Seq<u8>
    decreases s.len(),
{
    if width == 0 || s.len() < width {
        seq![]
    } else {
        s.take(width as int).reverse() + turned(s.skip(width as int), width)
    }
}

/// The bytes of a float payload, most significant first; all that are no number
/// are one.
pub open spec fn float_bytes(payload: Seq<u8>) -> Seq<u8> {
    match wire::take_u32(payload) {
        Some((bits, rest)) => if bits % 0x8000_0000 > 0x7f80_0000 {
            seq![0x7fu8, 0xc0u8, 0u8, 0u8]
        } else {
            payload
        },
        None => payload,
    }
}

pub open spec fn double_bytes(payload: Seq<u8>) -> Seq<u8> {
    match wire::take_u64(payload) {
        Some((bits, rest)) => if bits % 0x8000_0000_0000_0000 > 0x7ff0_0000_0000_0000 {
            seq![0x7fu8, 0xf8u8, 0u8, 0u8, 0u8, 0u8, 0u8, 0u8]
        } else {
            payload
        },
        None => payload,
    }
}

/// What is hashed of a tag that is a number or an array.
pub open spec fn plain_bytes(tag: Tag) -> Option<Seq<u8>> {
    if tag.kind == nbt::TAG_BYTE {
        Some(seq![6u8] + tag.payload)
    } else if tag.kind == nbt::TAG_SHORT {
        Some(seq![7u8] + tag.payload.reverse())
    } else if tag.kind == nbt::TAG_INT {
        Some(seq![8u8] + tag.payload.reverse())
    } else if tag.kind == nbt::TAG_LONG {
        Some(seq![9u8] + tag.payload.reverse())
    } else if tag.kind == nbt::TAG_FLOAT {
        Some(seq![10u8] + float_bytes(tag.payload).reverse())
    } else if tag.kind == nbt::TAG_DOUBLE {
        Some(seq![11u8] + double_bytes(tag.payload).reverse())
    } else if tag.payload.len() < 4 {
        None
    } else if tag.kind == nbt::TAG_BYTE_ARRAY {
        Some(seq![14u8] + turned(tag.payload.skip(4), 1) + seq![15u8])
    } else if tag.kind == nbt::TAG_INT_ARRAY {
        Some(seq![16u8] + turned(tag.payload.skip(4), 4) + seq![17u8])
    } else if tag.kind == nbt::TAG_LONG_ARRAY {
        Some(seq![18u8] + turned(tag.payload.skip(4), 8) + seq![19u8])
    } else {
        None
    }
}

#[verifier::loop_isolation(false)]
fn push_reversed(out: &mut Vec<u8>, s: &[u8])
    ensures
        final(out)@ == old(out)@ + s@.reverse(),
{
    let mut i: usize = s.len();
    while i > 0
        invariant
            i <= s.len(),
            out@ == old(out)@ + s@.reverse().take(s.len() - i),
        decreases i,
    {
        i = i - 1;
        out.push(s[i]);
        assert(s@.reverse().take(s.len() - i) =~= s@.reverse().take(s.len() - i - 1).push(s[i as int]));
    }
    assert(s@.reverse().take(s.len() as int) =~= s@.reverse());
}

#[verifier::loop_isolation(false)]
fn push_turned(out: &mut Vec<u8>, s: &[u8], width: usize)
    requires
        width > 0,
    ensures
        final(out)@ == old(out)@ + turned(s@, width as nat),
{
    let mut r: &[u8] = s;
    while r.len() >= width
        invariant
            old(out)@ + turned(s@, width as nat) == out@ + turned(r@, width as nat),
        decreases r.len(),
    {
        let ghost left = r@;
        let ghost before = out@;
        let (element, rest): (&[u8], &[u8]) = r.split_at(width);
        push_reversed(out, element);
        r = rest;
        assert(left.take(width as int) =~= element@);
        assert(left.skip(width as int) =~= rest@);
        assert(before + turned(left, width as nat) =~= out@ + turned(r@, width as nat));
    }
    assert(out@ + turned(r@, width as nat) =~= out@);
}

fn push_array(out: &mut Vec<u8>, payload: &[u8], start: u8, width: usize, end: u8)
    requires
        width > 0,
        payload.len() >= 4,
    ensures
        final(out)@ == old(out)@ + (seq![start] + turned(payload@.skip(4), width as nat) + seq![end]),
{
    out.push(start);
    let (count, elements): (&[u8], &[u8]) = payload.split_at(4);
    assert(elements@ =~= payload@.skip(4));
    push_turned(out, elements, width);
    out.push(end);
    assert(out@ =~= old(out)@ + (seq![start] + turned(payload@.skip(4), width as nat) + seq![end]));
}

fn push_float(out: &mut Vec<u8>, payload: &[u8])
    ensures
        final(out)@ == old(out)@ + float_bytes(payload@).reverse(),
{
    let mut r: &[u8] = payload;
    if let Ok(bits) = wire::get_u32(&mut r) {
        if bits % 0x8000_0000 > 0x7f80_0000 {
            out.push(0);
            out.push(0);
            out.push(0xc0);
            out.push(0x7f);
            assert(out@ =~= old(out)@ + seq![0x7fu8, 0xc0u8, 0u8, 0u8].reverse());
            return;
        }
    }
    push_reversed(out, payload);
}

fn push_double(out: &mut Vec<u8>, payload: &[u8])
    ensures
        final(out)@ == old(out)@ + double_bytes(payload@).reverse(),
{
    let mut r: &[u8] = payload;
    if let Ok(bits) = wire::get_u64(&mut r) {
        if bits % 0x8000_0000_0000_0000 > 0x7ff0_0000_0000_0000 {
            push_le32(out, 0);
            push_le16(out, 0);
            out.push(0xf8);
            out.push(0x7f);
            assert(out@ =~= old(out)@ + seq![0x7fu8, 0xf8u8, 0u8, 0u8, 0u8, 0u8, 0u8, 0u8].reverse());
            return;
        }
    }
    push_reversed(out, payload);
}

fn write_plain(out: &mut Vec<u8>, tag: &NbtTag) -> (res: bool)
    ensures
        match plain_bytes(tag@) {
            Some(bytes) => res && final(out)@ == old(out)@ + bytes,
            None => !res,
        },
{
    let payload: &[u8] = tag.payload.as_slice();
    let ghost before = out@;
    if tag.kind == nbt::TAG_BYTE {
        out.push(6);
        wire::write_bytes(out, payload);
        assert(out@ =~= before + (seq![6u8] + payload@));
    } else if tag.kind == nbt::TAG_SHORT {
        out.push(7);
        push_reversed(out, payload);
        assert(out@ =~= before + (seq![7u8] + payload@.reverse()));
    } else if tag.kind == nbt::TAG_INT {
        out.push(8);
        push_reversed(out, payload);
        assert(out@ =~= before + (seq![8u8] + payload@.reverse()));
    } else if tag.kind == nbt::TAG_LONG {
        out.push(9);
        push_reversed(out, payload);
        assert(out@ =~= before + (seq![9u8] + payload@.reverse()));
    } else if tag.kind == nbt::TAG_FLOAT {
        out.push(10);
        push_float(out, payload);
        assert(out@ =~= before + (seq![10u8] + float_bytes(payload@).reverse()));
    } else if tag.kind == nbt::TAG_DOUBLE {
        out.push(11);
        push_double(out, payload);
        assert(out@ =~= before + (seq![11u8] + double_bytes(payload@).reverse()));
    } else if payload.len() < 4 {
        return false;
    } else if tag.kind == nbt::TAG_BYTE_ARRAY {
        push_array(out, payload, 14, 1, 15);
    } else if tag.kind == nbt::TAG_INT_ARRAY {
        push_array(out, payload, 16, 4, 17);
    } else if tag.kind == nbt::TAG_LONG_ARRAY {
        push_array(out, payload, 18, 8, 19);
    } else {
        return false;
    }
    true
}

// --- lists and compounds ----------------------------------------------------------------------

/// The payload bytes of a compound's tags.
pub open spec fn entry_weight(c: Seq<Entry>) -> nat
    decreases c.len(),
{
    if c.len() == 0 {
        0
    } else {
        entry_weight(c.drop_last()) + c.last().tag.payload.len()
    }
}

pub open spec fn tag_weight(tags: Seq<Tag>) -> nat
    decreases tags.len(),
{
    if tags.len() == 0 {
        0
    } else {
        tag_weight(tags.drop_last()) + tags.last().payload.len()
    }
}

pub proof fn lemma_entry_weight(c: Seq<Entry>, i: int)
    requires
        0 <= i < c.len(),
    ensures
        c[i].tag.payload.len() <= entry_weight(c),
    decreases c.len(),
{
    if i < c.len() - 1 {
        lemma_entry_weight(c.drop_last(), i);
    }
}

pub proof fn lemma_tag_weight(tags: Seq<Tag>, i: int)
    requires
        0 <= i < tags.len(),
    ensures
        tags[i].payload.len() <= tag_weight(tags),
    decreases tags.len(),
{
    if i < tags.len() - 1 {
        lemma_tag_weight(tags.drop_last(), i);
    }
}

proof fn lemma_update_weight(c: Seq<Entry>, i: int, e: Entry)
    requires
        0 <= i < c.len(),
    ensures
        entry_weight(c.update(i, e)) + c[i].tag.payload.len() == entry_weight(c) + e.tag.payload.len(),
    decreases c.len(),
{
    if i < c.len() - 1 {
        lemma_update_weight(c.drop_last(), i, e);
        assert(c.update(i, e).drop_last() =~= c.drop_last().update(i, e));
    } else {
        assert(c.update(i, e).drop_last() =~= c.drop_last());
    }
}

proof fn lemma_put_weight(c: Seq<Entry>, name: Seq<u8>, tag: Tag)
    ensures
        entry_weight(nbt::put(c, name, tag)) <= entry_weight(c) + tag.payload.len(),
{
    if nbt::holds(c, name) {
        let p = nbt::position(c, name);
        assert(nbt::is_first(c, name, p));
        lemma_update_weight(c, p, Entry { name, tag });
    } else {
        assert(c.push(Entry { name, tag }).drop_last() =~= c);
    }
}

pub proof fn lemma_entries_weight(c: Seq<Entry>, s: Seq<u8>)
    ensures
        nbt::take_entries(c, s) matches Some((all, rest)) ==> entry_weight(all) < entry_weight(c) + s.len(),
    decreases s.len(),
{
    if s.len() > 0 && s[0] != nbt::TAG_END {
        if let Some((name, t)) = nbt::take_text(s.skip(1)) {
            nbt::lemma_payload_shorter(s[0], t);
            if let Some((tag, rest)) = nbt::take_payload(s[0], t) {
                if rest.len() < s.len() {
                    lemma_put_weight(c, name, tag);
                    lemma_entries_weight(nbt::put(c, name, tag), rest);
                }
            }
        }
    }
}

pub proof fn lemma_tags_weight(tags: Seq<Tag>, kind: u8, n: nat, s: Seq<u8>)
    ensures
        nbt::take_tags(tags, kind, n, s) matches Some((all, rest)) ==> tag_weight(all) + rest.len() <= tag_weight(
            tags,
        ) + s.len(),
    decreases n,
{
    if n > 0 {
        nbt::lemma_payload_shorter(kind, s);
        if let Some((tag, rest)) = nbt::take_payload(kind, s) {
            assert(tags.push(tag).drop_last() =~= tags);
            lemma_tags_weight(tags.push(tag), kind, (n - 1) as nat, rest);
        }
    }
}

/// The tags inside a tag are smaller than the tag.
pub proof fn lemma_inner_weight(tag: Tag)
    ensures
        nbt::compound_of(tag) matches Some(c) ==> entry_weight(c) < tag.payload.len(),
        nbt::list_of(tag) matches Some(tags) ==> tag_weight(tags) < tag.payload.len(),
{
    if tag.kind == nbt::TAG_COMPOUND {
        lemma_entries_weight(seq![], tag.payload);
    }
    if tag.kind == nbt::TAG_LIST && tag.payload.len() >= 5 {
        if let Some((n, rest)) = wire::take_i32(tag.payload.skip(1)) {
            if n >= 0 {
                lemma_tags_weight(seq![], tag.payload[0], n as nat, rest);
            }
        }
    }
}

/// A key's hash above a value's: numbers in order are pairs in order.
pub open spec fn pair_number(key: i32, value: i32) -> u64 {
    (wire::bits_of_i32(key) * 0x1_0000_0000 + wire::bits_of_i32(value)) as u64
}

pub open spec fn pairs_bytes(pairs: Seq<u64>) -> Seq<u8>
    decreases pairs.len(),
{
    if pairs.len() == 0 {
        seq![]
    } else {
        pairs_bytes(pairs.drop_last()) + le32((pairs.last() / 0x1_0000_0000) as u32) + le32(
            (pairs.last() % 0x1_0000_0000) as u32,
        )
    }
}

/// The hashes of the entries from `i` on, put in order into `out`.
pub open spec fn pairs_from(out: Seq<u64>, c: Seq<Entry>, i: int) -> Option<Seq<u64>>
    decreases entry_weight(c), 1int, c.len() - i,
{
    if i < 0 || i >= c.len() {
        Some(out)
    } else {
        proof {
            lemma_entry_weight(c, i);
        }
        match (string_hash(c[i].name), tag_hash(c[i].tag)) {
            (Some(key), Some(value)) => pairs_from(
                order::with_number(out, pair_number(key, value)),
                c,
                i + 1,
            ),
            _ => None,
        }
    }
}

/// The hash of a compound: its entries by their hashes, in order.
pub open spec fn compound_hash(c: Seq<Entry>) -> Option<i32>
    decreases entry_weight(c), 2int, 0int,
{
    match pairs_from(seq![], c, 0) {
        Some(pairs) => Some(crc(seq![2u8] + pairs_bytes(pairs) + seq![3u8])),
        None => None,
    }
}

/// The hashes of the tags from `i` on.
pub open spec fn hashes_from(tags: Seq<Tag>, i: int) -> Option<Seq<u8>>
    decreases tag_weight(tags), 1int, tags.len() - i,
{
    if i < 0 || i >= tags.len() {
        Some(seq![])
    } else {
        proof {
            lemma_tag_weight(tags, i);
        }
        match tag_hash(tags[i]) {
            Some(hash) => match hashes_from(tags, i + 1) {
                Some(rest) => Some(le32(wire::bits_of_i32(hash)) + rest),
                None => None,
            },
            None => None,
        }
    }
}

/// The hash of a tag.
pub open spec fn tag_hash(tag: Tag) -> Option<i32>
    decreases tag.payload.len(), 0int, 0int,
{
    if tag.kind == nbt::TAG_STRING {
        match nbt::string_of(tag) {
            Some(text) => string_hash(text),
            None => None,
        }
    } else if tag.kind == nbt::TAG_LIST {
        proof {
            lemma_inner_weight(tag);
        }
        match nbt::list_of(tag) {
            Some(tags) => match hashes_from(tags, 0) {
                Some(bytes) => Some(crc(seq![4u8] + bytes + seq![5u8])),
                None => None,
            },
            None => None,
        }
    } else if tag.kind == nbt::TAG_COMPOUND {
        proof {
            lemma_inner_weight(tag);
        }
        match nbt::compound_of(tag) {
            Some(c) => compound_hash(c),
            None => None,
        }
    } else {
        match plain_bytes(tag) {
            Some(bytes) => Some(crc(bytes)),
            None => None,
        }
    }
}

fn write_pair(out: &mut Vec<u8>, pair: u64)
    ensures
        final(out)@ == old(out)@ + le32((pair / 0x1_0000_0000) as u32) + le32((pair % 0x1_0000_0000) as u32),
{
    push_le32(out, (pair / 0x1_0000_0000) as u32);
    push_le32(out, (pair % 0x1_0000_0000) as u32);
}

#[verifier::loop_isolation(false)]
fn write_pairs(out: &mut Vec<u8>, pairs: &Vec<u64>)
    ensures
        final(out)@ == old(out)@ + pairs_bytes(pairs@),
{
    let mut i: usize = 0;
    assert(pairs@.take(0) =~= seq![]);
    assert(out@ =~= old(out)@ + pairs_bytes(pairs@.take(0)));
    while i < pairs.len()
        invariant
            i <= pairs.len(),
            out@ == old(out)@ + pairs_bytes(pairs@.take(i as int)),
        decreases pairs.len() - i,
    {
        write_pair(out, pairs[i]);
        let ghost next = pairs@.take(i + 1);
        assert(next.drop_last() =~= pairs@.take(i as int));
        assert(out@ =~= old(out)@ + pairs_bytes(next));
        i = i + 1;
    }
    assert(pairs@.take(pairs@.len() as int) =~= pairs@);
}

#[verifier::loop_isolation(false)]
pub fn hash_compound(c: &NbtCompound) -> (res: Option<i32>)
    ensures
        res == compound_hash(c@),
    decreases entry_weight(c@), 2int, 0int,
{
    let mut pairs: Vec<u64> = Vec::new();
    let mut i: usize = 0;
    while i < c.entries.len()
        invariant
            i <= c.entries.len(),
            pairs_from(seq![], c@, 0) == pairs_from(pairs@, c@, i as int),
        decreases c.entries.len() - i,
    {
        proof {
            lemma_entry_weight(c@, i as int);
            assert(c@[i as int] == c.entries@[i as int]@);
        }
        let key: i32 = match hash_string(c.entries[i].name.as_slice()) {
            Some(key) => key,
            None => {
                return None;
            },
        };
        let value: i32 = match hash_tag(&c.entries[i].tag) {
            Some(value) => value,
            None => {
                return None;
            },
        };
        let pair: u64 = wire::i32_to_bits(key) as u64 * 0x1_0000_0000 + wire::i32_to_bits(value) as u64;
        order::add_number(&mut pairs, pair);
        i = i + 1;
    }
    let mut bytes: Vec<u8> = Vec::new();
    bytes.push(2);
    write_pairs(&mut bytes, &pairs);
    bytes.push(3);
    assert(bytes@ =~= seq![2u8] + pairs_bytes(pairs@) + seq![3u8]);
    Some(crc32c(bytes.as_slice()))
}

#[verifier::loop_isolation(false)]
fn hash_list(tags: &Vec<NbtTag>) -> (res: Option<i32>)
    ensures
        res == match hashes_from(nbt::tag_views(tags@), 0) {
            Some(bytes) => Some(crc(seq![4u8] + bytes + seq![5u8])),
            None => None::<i32>,
        },
    decreases tag_weight(nbt::tag_views(tags@)), 2int, 0int,
{
    let ghost views = nbt::tag_views(tags@);
    let ghost all = hashes_from(views, 0);
    let mut bytes: Vec<u8> = Vec::new();
    bytes.push(4);
    let mut i: usize = 0;
    proof {
        if let Some(more) = all {
            assert(seq![4u8] + more =~= bytes@ + more);
        }
    }
    while i < tags.len()
        invariant
            i <= tags.len(),
            match hashes_from(views, i as int) {
                Some(more) => all is Some && seq![4u8] + all.unwrap() == bytes@ + more,
                None => all is None,
            },
        decreases tags.len() - i,
    {
        proof {
            lemma_tag_weight(views, i as int);
            assert(views[i as int] == tags@[i as int]@);
        }
        let ghost before = bytes@;
        match hash_tag(&tags[i]) {
            Some(hash) => {
                push_le32(&mut bytes, wire::i32_to_bits(hash));
                proof {
                    if let Some(more) = hashes_from(views, i + 1) {
                        assert(before + (le32(wire::bits_of_i32(hash)) + more) =~= bytes@ + more);
                    }
                }
            },
            None => {
                return None;
            },
        }
        i = i + 1;
    }
    bytes.push(5);
    assert(bytes@ =~= seq![4u8] + all.unwrap() + seq![5u8]);
    Some(crc32c(bytes.as_slice()))
}

pub fn hash_tag(tag: &NbtTag) -> (res: Option<i32>)
    ensures
        res == tag_hash(tag@),
    decreases tag@.payload.len(), 0int, 0int,
{
    proof {
        lemma_inner_weight(tag@);
    }
    if tag.kind == nbt::TAG_STRING {
        match tag.extract_string() {
            Some(text) => hash_string(text.as_slice()),
            None => None,
        }
    } else if tag.kind == nbt::TAG_LIST {
        match tag.extract_list() {
            Some(tags) => hash_list(&tags),
            None => None,
        }
    } else if tag.kind == nbt::TAG_COMPOUND {
        match tag.extract_compound() {
            Some(c) => hash_compound(&c),
            None => None,
        }
    } else {
        let mut bytes: Vec<u8> = Vec::new();
        if write_plain(&mut bytes, tag) {
            proof {
                assert(bytes@ =~= plain_bytes(tag@).unwrap());
            }
            Some(crc32c(bytes.as_slice()))
        } else {
            None
        }
    }
}

// --- the order of a compound's entries --------------------------------------------------------

#[verifier::opaque]
spec fn hashable(e: Entry) -> bool {
    string_hash(e.name) is Some && tag_hash(e.tag) is Some
}

#[verifier::opaque]
spec fn number_of(e: Entry) -> u64 {
    pair_number(string_hash(e.name).unwrap(), tag_hash(e.tag).unwrap())
}

spec fn numbers(c: Seq<Entry>) -> Seq<u64> {
    Seq::new(c.len(), |i: int| number_of(c[i]))
}

proof fn lemma_numbers_step(out: Seq<u64>, c: Seq<Entry>, i: int)
    requires
        0 <= i < c.len(),
    ensures
        out.to_multiset().insert(number_of(c[i])).add(numbers(c.skip(i + 1)).to_multiset())
            == out.to_multiset().add(numbers(c.skip(i)).to_multiset()),
{
    let n = number_of(c[i]);
    let here = numbers(c.skip(i));
    assert(here.remove(0) =~= numbers(c.skip(i + 1)));
    vstd::seq_lib::to_multiset_remove(here, 0);
    vstd::seq_lib::to_multiset_contains(here, n);
    assert(here[0] == n);
    assert(here.to_multiset() =~= here.to_multiset().remove(n).insert(n));
    assert(out.to_multiset().insert(n).add(here.to_multiset().remove(n)) =~= out.to_multiset().add(
        here.to_multiset(),
    ));
}

proof fn lemma_pairs_step(out: Seq<u64>, c: Seq<Entry>, i: int)
    requires
        0 <= i < c.len(),
    ensures
        pairs_from(out, c, i) == if hashable(c[i]) {
            pairs_from(order::with_number(out, number_of(c[i])), c, i + 1)
        } else {
            None
        },
{
    reveal(hashable);
    reveal(number_of);
}

#[verifier::spinoff_prover]
proof fn lemma_pairs(out: Seq<u64>, c: Seq<Entry>, i: int)
    requires
        order::sorted(out),
        0 <= i <= c.len(),
    ensures
        pairs_from(out, c, i) is Some <==> forall|j: int| i <= j < c.len() ==> #[trigger] hashable(c[j]),
        pairs_from(out, c, i) matches Some(pairs) ==> order::sorted(pairs) && pairs.to_multiset()
            == out.to_multiset().add(numbers(c.skip(i)).to_multiset()),
    decreases c.len() - i,
{
    if i == c.len() {
        assert(numbers(c.skip(i)) =~= seq![]);
        let none: Seq<u64> = seq![];
        vstd::seq_lib::to_multiset_len(none);
        assert(none.to_multiset() =~= vstd::multiset::Multiset::empty());
        assert(out.to_multiset().add(vstd::multiset::Multiset::empty()) =~= out.to_multiset());
    } else {
        lemma_pairs_step(out, c, i);
        if hashable(c[i]) {
            order::lemma_with_number(out, number_of(c[i]));
            lemma_numbers_step(out, c, i);
            lemma_pairs(order::with_number(out, number_of(c[i])), c, i + 1);
        }
    }
}

proof fn lemma_numbers(a: Seq<Entry>, b: Seq<Entry>)
    requires
        a.to_multiset() == b.to_multiset(),
    ensures
        numbers(a).to_multiset() == numbers(b).to_multiset(),
    decreases a.len(),
{
    vstd::seq_lib::to_multiset_len(a);
    vstd::seq_lib::to_multiset_len(b);
    if a.len() == 0 {
        assert(numbers(a) =~= numbers(b));
    } else {
        let e = a[0];
        vstd::seq_lib::to_multiset_contains(a, e);
        vstd::seq_lib::to_multiset_contains(b, e);
        let k = choose|k: int| 0 <= k < b.len() && b[k] == e;
        vstd::seq_lib::to_multiset_remove(a, 0);
        vstd::seq_lib::to_multiset_remove(b, k);
        lemma_numbers(a.remove(0), b.remove(k));
        assert(numbers(a).remove(0) =~= numbers(a.remove(0)));
        assert(numbers(b).remove(k) =~= numbers(b.remove(k)));
        vstd::seq_lib::to_multiset_remove(numbers(a), 0);
        vstd::seq_lib::to_multiset_remove(numbers(b), k);
        let n = number_of(e);
        assert(numbers(a)[0] == n);
        assert(numbers(b)[k] == n);
        vstd::seq_lib::to_multiset_contains(numbers(a), n);
        vstd::seq_lib::to_multiset_contains(numbers(b), n);
        assert(numbers(a).to_multiset() =~= numbers(a).to_multiset().remove(n).insert(n));
        assert(numbers(b).to_multiset() =~= numbers(b).to_multiset().remove(n).insert(n));
    }
}

/// The hash of a compound does not depend on the order of its entries.
pub proof fn entry_order_does_not_matter(a: Seq<Entry>, b: Seq<Entry>)
    requires
        a.to_multiset() == b.to_multiset(),
    ensures
        compound_hash(a) == compound_hash(b),
{
    let none: Seq<u64> = seq![];
    lemma_pairs(none, a, 0);
    lemma_pairs(none, b, 0);
    assert(a.skip(0) =~= a);
    assert(b.skip(0) =~= b);
    assert forall|j: int| 0 <= j < a.len() && pairs_from(none, b, 0) is Some implies #[trigger] hashable(a[j]) by {
        vstd::seq_lib::to_multiset_contains(a, a[j]);
        vstd::seq_lib::to_multiset_contains(b, a[j]);
        let k = choose|k: int| 0 <= k < b.len() && b[k] == a[j];
        assert(hashable(b[k]));
    }
    assert forall|j: int| 0 <= j < b.len() && pairs_from(none, a, 0) is Some implies #[trigger] hashable(b[j]) by {
        vstd::seq_lib::to_multiset_contains(a, b[j]);
        vstd::seq_lib::to_multiset_contains(b, b[j]);
        let k = choose|k: int| 0 <= k < a.len() && a[k] == b[j];
        assert(hashable(a[k]));
    }
    if let (Some(p), Some(q)) = (pairs_from(none, a, 0), pairs_from(none, b, 0)) {
        lemma_numbers(a, b);
        order::lemma_sorted_unique(p, q);
    }
}

} // verus!
