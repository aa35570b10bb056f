//! Block states inside chunk packets.
//!
//! The server writes a chunk in the client's own layout, but its palettes hold the
//! server's state numbers, and a client throws on a number that its own registry
//! lacks. Only the block palettes are renumbered; biomes, heightmaps and light are
//! copied. Clients before 1.18 get another shape altogether.
//!
//! The layouts differ at 1.20.2 (the name of the root tag), 1.21.5 (heightmaps as a
//! list, no lengths) and 26.1 (the count of fluids).
use std::collections::HashSet;
use vstd::prelude::*;
use vstd::arithmetic::power2::pow2;
use vstd::slice::slice_subrange;
use vstd::slice::slice_to_vec;
use crate::mapping;
use crate::mapping::IdMapping;
use crate::nbt;
use crate::nbt::NbtTag;
use crate::palette;
use crate::position;
use crate::shape;
use crate::shape::Shape;
use crate::target::Target;
use crate::version;
use crate::version::Version;
use crate::wire;
use crate::wire::ReadingError;

verus! {

broadcast use vstd::std_specs::hash::group_hash_axioms;

/// The oldest layout that is read here, which is the oldest that the server writes.
pub const OLDEST_LAYOUT: Version = version::V_1_18;
/// The widest entries that index a palette; wider ones are state numbers.
pub const MAX_INDIRECT_BLOCK_BITS: u8 = 8;
/// The same for biomes.
pub const MAX_INDIRECT_BIOME_BITS: u8 = 3;
/// The blocks of a section.
pub const BLOCKS_PER_SECTION: usize = 4096;
/// The biomes of a section.
pub const BIOMES_PER_SECTION: usize = 64;
/// The most block entities that a chunk packet may hold.
pub const MAX_CHUNK_BLOCK_ENTITIES: usize = 131072;

// --- containers ------------------------------------------------------------------------

/// A state number for the client; one that it lacks becomes air.
pub open spec fn state_remapped(state: u32, states: Seq<Option<u32>>) -> u32 {
    match mapping::target_of(states, state) {
        Some(target) => if target <= 0xffff {
            target
        } else {
            0
        },
        None => 0,
    }
}

pub fn remap_block_state(state: u32, states: &IdMapping) -> (res: u32)
    ensures
        res == state_remapped(state, states@),
{
    match states.map(state) {
        Some(target) => if target <= 0xffff {
            target
        } else {
            0
        },
        None => 0,
    }
}

/// The table of a container that is renumbered; none for one that is copied.
pub open spec fn table_view(states: Option<&IdMapping>) -> Option<Seq<Option<u32>>> {
    match states {
        Some(states) => Some(states@),
        None => None,
    }
}

/// A palette entry for the client: nothing where it is no state number.
pub open spec fn id_remapped(id: i32, states: Option<Seq<Option<u32>>>) -> Option<i32> {
    match states {
        Some(states) => if 0 <= id <= 0xffff {
            Some(state_remapped(id as u32, states) as i32)
        } else {
            None
        },
        None => Some(id),
    }
}

fn remap_id(id: i32, states: Option<&IdMapping>) -> (res: Option<i32>)
    ensures
        res == id_remapped(id, table_view(states)),
{
    match states {
        Some(states) => if 0 <= id && id <= 0xffff {
            Some(remap_block_state(id as u32, states) as i32)
        } else {
            None
        },
        None => Some(id),
    }
}

/// `n` palette entries for the client, behind those that were written.
pub open spec fn palette_copied(
    done: Seq<u8>,
    n: nat,
    s: Seq<u8>,
    states: Option<Seq<Option<u32>>>,
) -> Option<(Seq<u8>, Seq<u8>)>
    decreases n,
{
    if n == 0 {
        Some((done, s))
    } else {
        match wire::take_var_int(s) {
            Some((id, rest)) => match id_remapped(id, states) {
                Some(mapped) => palette_copied(done + wire::enc_var_int(mapped), (n - 1) as nat, rest, states),
                None => None,
            },
            None => None,
        }
    }
}

/// What stands in front of a container's words: the one entry of all, or a palette.
pub open spec fn palette_head(
    bits: u8,
    s: Seq<u8>,
    max_bits: u8,
    states: Option<Seq<Option<u32>>>,
) -> Option<(Seq<u8>, Seq<u8>)> {
    if bits == 0 {
        palette_copied(seq![], 1, s, states)
    } else if bits <= max_bits {
        match wire::take_var_int(s) {
            Some((n, rest)) => palette_copied(wire::enc_var_int(n), shape::times(n), rest, states),
            None => None,
        }
    } else {
        Some((seq![], s))
    }
}

/// State numbers for the client.
pub open spec fn all_remapped(values: Seq<u32>, states: Seq<Option<u32>>) -> Seq<u32> {
    values.map_values(|state: u32| state_remapped(state, states))
}

/// Packed state numbers for the client, at the same width; nothing where a number
/// is no state or does not fit the width any more.
pub open spec fn direct_remapped(words: Seq<u64>, bits: u8, count: nat, states: Seq<Option<u32>>) -> Option<Seq<u64>> {
    let values = palette::entries(words, bits, count);
    let mapped = all_remapped(values, states);
    if palette::all_fit(values, 16) && palette::all_fit(mapped, bits as nat) {
        Some(palette::packed(mapped, bits))
    } else {
        None
    }
}

/// A container's words. Before 1.21.5 they have their number in front.
pub open spec fn take_container_words(s: Seq<u8>, count: nat, bits: u8, version: Version) -> Option<(Seq<u64>, Seq<u8>)> {
    let expected = palette::long_count(count, bits);
    if version < version::V_1_21_5 {
        match wire::take_var_int(s) {
            Some((n, rest)) => if n == expected {
                palette::take_words(seq![], expected, rest)
            } else {
                None
            },
            None => None,
        }
    } else {
        palette::take_words(seq![], expected, s)
    }
}

pub open spec fn enc_container_words(words: Seq<u64>, version: Version) -> Seq<u8> {
    if version < version::V_1_21_5 {
        palette::enc_longs(words)
    } else {
        palette::enc_words(words)
    }
}

/// A container for the client: its palette, or its words where it has none, are
/// renumbered where there is a table.
pub open spec fn container_copied(
    s: Seq<u8>,
    count: nat,
    max_bits: u8,
    states: Option<Seq<Option<u32>>>,
    version: Version,
) -> Option<(Seq<u8>, Seq<u8>)> {
    match wire::take_u8(s) {
        Some((bits, t)) => if bits > 32 {
            None
        } else {
            match palette_head(bits, t, max_bits, states) {
                Some((head, u)) => match take_container_words(u, count, bits, version) {
                    Some((words, rest)) => {
                        let shown = if bits > max_bits && states is Some {
                            direct_remapped(words, bits, count, states.unwrap())
                        } else {
                            Some(words)
                        };
                        match shown {
                            Some(shown) => Some((seq![bits] + head + enc_container_words(shown, version), rest)),
                            None => None,
                        }
                    },
                    None => None,
                },
                None => None,
            }
        },
        None => None,
    }
}

#[verifier::loop_isolation(false)]
pub fn copy_palette(n: i32, r: &mut &[u8], out: &mut Vec<u8>, states: Option<&IdMapping>) -> (res: Result<(), ReadingError>)
    ensures
        match palette_copied(old(out)@, shape::times(n), old(r)@, table_view(states)) {
            Some((bytes, rest)) => res is Ok && final(out)@ == bytes && final(r)@ == rest,
            None => res is Err,
        },
{
    let ghost wanted = palette_copied(out@, shape::times(n), r@, table_view(states));
    let mut left: i32 = n;
    while left > 0
        invariant
            wanted == palette_copied(out@, shape::times(left), r@, table_view(states)),
        decreases left,
    {
        let id: i32 = wire::get_var_int(r)?;
        match remap_id(id, states) {
            Some(mapped) => wire::write_var_int(out, mapped),
            None => {
                return Err(ReadingError::Malformed);
            },
        }
        left = left - 1;
    }
    Ok(())
}

#[verifier::loop_isolation(false)]
fn remap_direct(words: &Vec<u64>, bits: u8, count: usize, states: &IdMapping) -> (res: Option<Vec<u64>>)
    requires
        1 <= bits <= 32,
        words.len() == palette::long_count(count as nat, bits),
    ensures
        match res {
            Some(found) => direct_remapped(words@, bits, count as nat, states@) == Some(found@),
            None => direct_remapped(words@, bits, count as nat, states@) is None,
        },
{
    let values: Vec<u32> = match palette::unpack(words, bits, count) {
        Some(values) => values,
        None => {
            return None;
        },
    };
    let ghost mapped_all = all_remapped(values@, states@);
    proof {
        vstd::arithmetic::power2::lemma2_to64();
        vstd::bits::lemma_u64_pow2_no_overflow(bits as nat);
        vstd::bits::lemma_u64_shl_is_mul(1, bits as u64);
    }
    let limit: u64 = 1u64 << bits as u64;
    let mut mapped: Vec<u32> = Vec::new();
    let mut i: usize = 0;
    while i < values.len()
        invariant
            i <= values.len(),
            mapped@ == mapped_all.take(i as int),
            forall|k: int| 0 <= k < i ==> (#[trigger] values@[k] as nat) < pow2(16),
            forall|k: int| 0 <= k < i ==> (#[trigger] mapped_all[k] as nat) < pow2(bits as nat),
        decreases values.len() - i,
    {
        let state: u32 = remap_block_state(values[i], states);
        assert(state == mapped_all[i as int]);
        if values[i] > 0xffff || state as u64 >= limit {
            return None;
        }
        mapped.push(state);
        assert(mapped@ =~= mapped_all.take(i + 1));
        i = i + 1;
    }
    assert(mapped@ =~= mapped_all);
    Some(palette::pack(&mapped, bits))
}

fn read_container_words(r: &mut &[u8], count: usize, bits: u8, version: Version) -> (res: Result<Vec<u64>, ReadingError>)
    requires
        bits <= 32,
    ensures
        palette::gave_words(res, final(r)@, take_container_words(old(r)@, count as nat, bits, version)),
        res is Ok ==> res->Ok_0.len() == palette::long_count(count as nat, bits),
{
    let expected: usize = palette::packed_long_count(count, bits);
    if version < version::V_1_21_5 {
        let n: i32 = wire::get_var_int(r)?;
        if n < 0 || n as u64 != expected as u64 {
            return Err(ReadingError::Malformed);
        }
    }
    proof {
        lemma_words_len(seq![], expected as nat, r@);
    }
    palette::get_words(expected, r)
}

pub proof fn lemma_words_len(words: Seq<u64>, n: nat, s: Seq<u8>)
    ensures
        palette::take_words(words, n, s) matches Some((found, rest)) ==> found.len() == words.len() + n,
    decreases n,
{
    if n > 0 {
        if let Some((word, rest)) = wire::take_u64(s) {
            lemma_words_len(words.push(word), (n - 1) as nat, rest);
        }
    }
}

pub fn copy_container(
    r: &mut &[u8],
    out: &mut Vec<u8>,
    count: usize,
    max_bits: u8,
    states: Option<&IdMapping>,
    version: Version,
) -> (res: Result<(), ReadingError>)
    ensures
        match container_copied(old(r)@, count as nat, max_bits, table_view(states), version) {
            Some((bytes, rest)) => res is Ok && final(out)@ == old(out)@ + bytes && final(r)@ == rest,
            None => res is Err,
        },
{
    let ghost before = out@;
    let bits: u8 = wire::get_u8(r)?;
    if bits > 32 {
        return Err(ReadingError::Malformed);
    }
    let mut head: Vec<u8> = Vec::new();
    if bits == 0 {
        copy_palette(1, r, &mut head, states)?;
    } else if bits <= max_bits {
        let n: i32 = wire::get_var_int(r)?;
        wire::write_var_int(&mut head, n);
        assert(head@ =~= wire::enc_var_int(n));
        copy_palette(n, r, &mut head, states)?;
    }
    let words: Vec<u64> = read_container_words(r, count, bits, version)?;
    let shown: Vec<u64> = match states {
        Some(states) => if bits > max_bits {
            match remap_direct(&words, bits, count, states) {
                Some(shown) => shown,
                None => {
                    return Err(ReadingError::Malformed);
                },
            }
        } else {
            words
        },
        None => words,
    };
    out.push(bits);
    wire::write_bytes(out, head.as_slice());
    if version < version::V_1_21_5 {
        palette::write_longs(out, &shown);
    } else {
        palette::write_words(out, &shown);
    }
    assert(out@ =~= before + (seq![bits] + head@ + enc_container_words(shown@, version)));
    Ok(())
}

// --- heightmaps ---------------------------------------------------------------------------

/// A tag as it stands, with its name where the form has one. A name is no longer
/// than a signed length can say.
pub open spec fn raw_nbt(s: Seq<u8>, named: bool) -> Option<(Seq<u8>, Seq<u8>)> {
    let too_long = named && s.len() > 0 && s[0] != nbt::TAG_END && match wire::take_u16(s.skip(1)) {
        Some((n, rest)) => n >= 0x8000,
        None => true,
    };
    if too_long {
        None
    } else {
        match nbt::take_nbt(s, named) {
            Some((tag, rest)) => Some((s.take(s.len() - rest.len()), rest)),
            None => None,
        }
    }
}

pub fn get_raw_nbt<'a>(r: &mut &'a [u8], named: bool) -> (res: Result<&'a [u8], ReadingError>)
    ensures
        match raw_nbt(old(r)@, named) {
            Some((bytes, rest)) => res is Ok && res->Ok_0@ == bytes && final(r)@ == rest,
            None => res is Err,
        },
        res is Ok ==> final(r)@.len() <= old(r)@.len(),
{
    let source: &'a [u8] = *r;
    if named && source.len() > 0 && source[0] != nbt::TAG_END {
        let mut name: &[u8] = slice_subrange(source, 1, source.len());
        assert(name@ =~= source@.skip(1));
        let length: u16 = wire::get_u16(&mut name)?;
        if length >= 0x8000 {
            return Err(ReadingError::Malformed);
        }
    }
    let _tag: Option<NbtTag> = nbt::get_nbt(r, named)?;
    let bytes: &'a [u8] = slice_subrange(source, 0, source.len() - r.len());
    assert(bytes@ =~= source@.take(source@.len() - r@.len()));
    Ok(bytes)
}

/// Heightmaps from 1.21.5 on: a list of kinds with their words.
#[verifier::allow_in_spec]
pub fn heightmap_list() -> Shape
    returns
        (shape::repeat(shape::pair(Shape::VarInt, shape::repeat(Shape::Fixed(8))))),
{
    shape::repeat(shape::pair(Shape::VarInt, shape::repeat(Shape::Fixed(8))))
}

/// The heightmaps, as the release frames them.
pub open spec fn heightmaps_copied(s: Seq<u8>, to: &Target) -> Option<(Seq<u8>, Seq<u8>)> {
    if to.version >= version::V_1_21_5 {
        shape::recode(heightmap_list(), s, to.cat, to.version)
    } else {
        raw_nbt(s, version::nbt_is_named(to.version))
    }
}

pub fn copy_heightmaps(r: &mut &[u8], out: &mut Vec<u8>, to: &Target) -> (res: Result<(), ReadingError>)
    ensures
        match heightmaps_copied(old(r)@, to) {
            Some((bytes, rest)) => res is Ok && final(out)@ == old(out)@ + bytes && final(r)@ == rest,
            None => res is Err,
        },
{
    if to.version >= version::V_1_21_5 {
        return shape::rewrite(&heightmap_list(), r, out, to.cat, to.version);
    }
    let bytes: &[u8] = get_raw_nbt(r, version::has_named_nbt(to.version))?;
    wire::write_bytes(out, bytes);
    Ok(())
}

// --- the packet -----------------------------------------------------------------------------

/// The parts of a chunk packet: the column's place, the heightmaps, the sections,
/// and the block entities with the light behind them.
#[verifier::ext_equal]
pub struct Parts {
    pub x: i32,
    pub z: i32,
    pub heightmaps: Seq<u8>,
    pub sections: Seq<u8>,
    pub tail: Seq<u8>,
}

pub open spec fn parts_of(payload: Seq<u8>, to: &Target) -> Option<Parts> {
    match wire::take_i32(payload) {
        Some((x, s1)) => match wire::take_i32(s1) {
            Some((z, s2)) => match heightmaps_copied(s2, to) {
                Some((heightmaps, s3)) => match wire::take_var_int(s3) {
                    Some((n, s4)) => match wire::take_bytes(s4, n as int) {
                        Some((sections, tail)) => Some(Parts { x, z, heightmaps, sections, tail }),
                        None => None,
                    },
                    None => None,
                },
                None => None,
            },
            None => None,
        },
        None => None,
    }
}

struct ChunkParts<'a> {
    x: i32,
    z: i32,
    heightmaps: Vec<u8>,
    sections: &'a [u8],
    tail: &'a [u8],
}

impl<'a> View for ChunkParts<'a> {
    type V = Parts;

    closed spec fn view(&self) -> Parts {
        Parts {
            x: self.x,
            z: self.z,
            heightmaps: self.heightmaps@,
            sections: self.sections@,
            tail: self.tail@,
        }
    }
}

fn read_parts<'a>(payload: &'a [u8], to: &Target) -> (res: Option<ChunkParts<'a>>)
    ensures
        match res {
            Some(parts) => parts_of(payload@, to) == Some(parts@) && parts.sections.len() <= i32::MAX,
            None => parts_of(payload@, to) is None,
        },
{
    let mut r: &'a [u8] = payload;
    let x: i32 = match wire::get_i32(&mut r) {
        Ok(x) => x,
        Err(_) => {
            return None;
        },
    };
    let z: i32 = match wire::get_i32(&mut r) {
        Ok(z) => z,
        Err(_) => {
            return None;
        },
    };
    let mut heightmaps: Vec<u8> = Vec::new();
    if copy_heightmaps(&mut r, &mut heightmaps, to).is_err() {
        return None;
    }
    let n: i32 = match wire::get_var_int(&mut r) {
        Ok(n) => n,
        Err(_) => {
            return None;
        },
    };
    if n < 0 {
        return None;
    }
    let sections: &'a [u8] = match wire::get_bytes(&mut r, n as usize) {
        Ok(sections) => sections,
        Err(_) => {
            return None;
        },
    };
    proof {
        let found = parts_of(payload@, to).unwrap();
        assert(heightmaps@ =~= found.heightmaps);
    }
    Some(ChunkParts { x, z, heightmaps, sections, tail: r })
}

pub open spec fn all_zero(s: Seq<u8>) -> bool {
    forall|i: int| 0 <= i < s.len() ==> (#[trigger] s[i]) == 0
}

#[verifier::loop_isolation(false)]
fn is_zero(bytes: &[u8]) -> (res: bool)
    ensures
        res == all_zero(bytes@),
{
    let mut i: usize = 0;
    while i < bytes.len()
        invariant
            i <= bytes.len(),
            forall|k: int| 0 <= k < i ==> (#[trigger] bytes@[k]) == 0,
        decreases bytes.len() - i,
    {
        if bytes[i] != 0 {
            return false;
        }
        i = i + 1;
    }
    true
}

/// The counts in front of a section: of blocks, and from 26.1 on of fluids.
pub open spec fn counts_size(version: Version) -> int {
    if version >= version::V_26_1 {
        4
    } else {
        2
    }
}

/// A section for the client.
pub open spec fn section_copied(s: Seq<u8>, to: &Target) -> Option<(Seq<u8>, Seq<u8>)> {
    match wire::take_bytes(s, counts_size(to.version)) {
        Some((counts, t)) => match container_copied(
            t,
            BLOCKS_PER_SECTION as nat,
            MAX_INDIRECT_BLOCK_BITS,
            Some(to.ids.block_states@),
            to.version,
        ) {
            Some((blocks, u)) => match container_copied(
                u,
                BIOMES_PER_SECTION as nat,
                MAX_INDIRECT_BIOME_BITS,
                None,
                to.version,
            ) {
                Some((biomes, rest)) => Some((counts + blocks + biomes, rest)),
                None => None,
            },
            None => None,
        },
        None => None,
    }
}

/// The sections for the client, behind those that were written. Zeros at the end
/// are padding, and copied.
pub open spec fn sections_copied(done: Seq<u8>, s: Seq<u8>, to: &Target) -> Option<Seq<u8>>
    decreases s.len(),
{
    if all_zero(s) {
        Some(done + s)
    } else {
        match section_copied(s, to) {
            Some((bytes, rest)) => if rest.len() < s.len() {
                sections_copied(done + bytes, rest, to)
            } else {
                None
            },
            None => None,
        }
    }
}

fn copy_section(r: &mut &[u8], out: &mut Vec<u8>, to: &Target) -> (res: Result<(), ReadingError>)
    ensures
        match section_copied(old(r)@, to) {
            Some((bytes, rest)) => res is Ok && final(out)@ == old(out)@ + bytes && final(r)@ == rest,
            None => res is Err,
        },
{
    let ghost before = out@;
    let size: usize = if to.version >= version::V_26_1 { 4 } else { 2 };
    let counts: &[u8] = wire::get_bytes(r, size)?;
    wire::write_bytes(out, counts);
    let ghost blocks = container_copied(r@, 4096, 8, Some(to.ids.block_states@), to.version);
    copy_container(
        r,
        out,
        BLOCKS_PER_SECTION,
        MAX_INDIRECT_BLOCK_BITS,
        Some(&to.ids.block_states),
        to.version,
    )?;
    let ghost biomes = container_copied(r@, 64, 3, None, to.version);
    copy_container(r, out, BIOMES_PER_SECTION, MAX_INDIRECT_BIOME_BITS, None, to.version)?;
    assert(out@ =~= before + (counts@ + blocks.unwrap().0 + biomes.unwrap().0));
    Ok(())
}

#[verifier::loop_isolation(false)]
fn copy_sections(sections: &[u8], to: &Target) -> (res: Option<Vec<u8>>)
    ensures
        match res {
            Some(out) => sections_copied(seq![], sections@, to) == Some(out@),
            None => sections_copied(seq![], sections@, to) is None,
        },
{
    let mut r: &[u8] = sections;
    let mut out: Vec<u8> = Vec::new();
    while !is_zero(r)
        invariant
            sections_copied(seq![], sections@, to) == sections_copied(out@, r@, to),
        decreases r@.len(),
    {
        let length: usize = r.len();
        if copy_section(&mut r, &mut out, to).is_err() {
            return None;
        }
        if r.len() >= length {
            return None;
        }
    }
    wire::write_bytes(&mut out, r);
    Some(out)
}

/// A chunk for the client, once the block entities behind its sections have been
/// translated to `tail`: nothing where any of it cannot be read.
pub open spec fn chunk_remapped(payload: Seq<u8>, tail: Option<Seq<u8>>, to: &Target) -> Option<Seq<u8>> {
    if to.version < OLDEST_LAYOUT {
        None
    } else {
        match (parts_of(payload, to), tail) {
            (Some(parts), Some(tail)) => match sections_copied(seq![], parts.sections, to) {
                Some(sections) => if sections.len() <= i32::MAX {
                    Some(
                        wire::enc_i32(parts.x) + wire::enc_i32(parts.z) + parts.heightmaps + wire::enc_len(
                            sections.len(),
                        ) + sections + tail,
                    )
                } else {
                    None
                },
                None => None,
            },
            _ => None,
        }
    }
}

/// Whether a function gave the bytes that were wanted.
pub open spec fn gave_bytes(res: Option<Vec<u8>>, wanted: Option<Seq<u8>>) -> bool {
    match wanted {
        Some(bytes) => res is Some && res.unwrap()@ == bytes,
        None => res is None,
    }
}

/// The block entities of a chunk packet, with the light behind them, for the
/// rewriting of block entities.
pub fn chunk_tail(payload: &[u8], to: &Target) -> (res: Option<Vec<u8>>)
    ensures
        gave_bytes(
            res,
            match parts_of(payload@, to) {
                Some(parts) => Some(parts.tail),
                None => None,
            },
        ),
{
    match read_parts(payload, to) {
        Some(parts) => Some(slice_to_vec(parts.tail)),
        None => None,
    }
}

/// Renumbers the block palettes of a chunk packet. `tail` is what the rewriting of
/// block entities made of the packet's end. `None` drops the packet.
pub fn remap_chunk_payload(payload: &[u8], tail: Option<&[u8]>, to: &Target) -> (res: Option<Vec<u8>>)
    ensures
        gave_bytes(
            res,
            chunk_remapped(
                payload@,
                match tail {
                    Some(tail) => Some(tail@),
                    None => None,
                },
                to,
            ),
        ),
{
    if to.version < OLDEST_LAYOUT {
        return None;
    }
    let parts: ChunkParts<'_> = match read_parts(payload, to) {
        Some(parts) => parts,
        None => {
            return None;
        },
    };
    let tail: &[u8] = match tail {
        Some(tail) => tail,
        None => {
            return None;
        },
    };
    let sections: Vec<u8> = match copy_sections(parts.sections, to) {
        Some(sections) => sections,
        None => {
            return None;
        },
    };
    if sections.len() as u64 > 0x7fff_ffff {
        return None;
    }
    let mut out: Vec<u8> = Vec::new();
    wire::write_i32(&mut out, parts.x);
    wire::write_i32(&mut out, parts.z);
    wire::write_bytes(&mut out, parts.heightmaps.as_slice());
    wire::write_len(&mut out, sections.len());
    wire::write_bytes(&mut out, sections.as_slice());
    wire::write_bytes(&mut out, tail);
    assert(out@ =~= wire::enc_i32(parts.x) + wire::enc_i32(parts.z) + parts.heightmaps@ + wire::enc_len(
        sections.len() as nat,
    ) + sections@ + tail@);
    Some(out)
}

// --- where blocks stand ------------------------------------------------------------------

/// `n` numbers, behind those that were read.
pub open spec fn take_var_ints(ids: Seq<i32>, n: nat, s: Seq<u8>) -> Option<(Seq<i32>, Seq<u8>)>
    decreases n,
{
    if n == 0 {
        Some((ids, s))
    } else {
        match wire::take_var_int(s) {
            Some((id, rest)) => take_var_ints(ids.push(id), (n - 1) as nat, rest),
            None => None,
        }
    }
}

/// The palette of a block container: one entry where all blocks are the same, up to
/// a section's worth where entries index it, none where they are state numbers.
pub open spec fn take_block_palette(bits: u8, s: Seq<u8>) -> Option<(Seq<i32>, Seq<u8>)> {
    if bits == 0 {
        take_var_ints(seq![], 1, s)
    } else if bits <= MAX_INDIRECT_BLOCK_BITS {
        match wire::take_var_int(s) {
            Some((n, rest)) => if 1 <= n <= BLOCKS_PER_SECTION {
                take_var_ints(seq![], n as nat, rest)
            } else {
                None
            },
            None => None,
        }
    } else if bits <= 32 {
        Some((seq![], s))
    } else {
        None
    }
}

/// The words of a block container, which may be fewer than its blocks take.
pub open spec fn take_block_words(bits: u8, s: Seq<u8>, version: Version) -> Option<(Seq<u64>, Seq<u8>)> {
    let expected = palette::long_count(BLOCKS_PER_SECTION as nat, bits);
    if version < version::V_1_21_5 {
        match wire::take_var_int(s) {
            Some((n, rest)) => if 0 <= n <= expected {
                palette::take_words(seq![], n as nat, rest)
            } else {
                None
            },
            None => None,
        }
    } else {
        palette::take_words(seq![], expected, s)
    }
}

/// The states that entries stand for: nothing where one points past the palette or
/// is no number of a state.
pub open spec fn states_of(entries: Seq<u32>, palette: Seq<i32>, indirect: bool) -> Option<Seq<i32>> {
    if indirect {
        if forall|i: int| 0 <= i < entries.len() ==> (#[trigger] entries[i]) < palette.len() {
            Some(Seq::new(entries.len(), |i: int| palette[entries[i] as int]))
        } else {
            None
        }
    } else if palette::all_signed(entries) {
        Some(Seq::new(entries.len(), |i: int| entries[i] as i32))
    } else {
        None
    }
}

/// The states of a section's blocks, in the order of their places.
pub open spec fn take_block_states(s: Seq<u8>, version: Version) -> Option<(Seq<i32>, Seq<u8>)> {
    match wire::take_u8(s) {
        Some((bits, t)) => match take_block_palette(bits, t) {
            Some((palette, u)) => match take_block_words(bits, u, version) {
                Some((words, rest)) => if bits == 0 {
                    Some((Seq::new(BLOCKS_PER_SECTION as nat, |i: int| palette[0]), rest))
                } else {
                    match palette::unpacked(words, bits, BLOCKS_PER_SECTION as nat) {
                        Some(entries) => match states_of(entries, palette, bits <= MAX_INDIRECT_BLOCK_BITS) {
                            Some(states) => Some((states, rest)),
                            None => None,
                        },
                        None => None,
                    }
                },
                None => None,
            },
            None => None,
        },
        None => None,
    }
}

#[verifier::loop_isolation(false)]
fn read_var_ints(n: usize, r: &mut &[u8]) -> (res: Result<Vec<i32>, ReadingError>)
    ensures
        match take_var_ints(seq![], n as nat, old(r)@) {
            Some((ids, rest)) => res is Ok && res->Ok_0@ == ids && final(r)@ == rest,
            None => res is Err,
        },
        res is Ok ==> res->Ok_0.len() == n,
{
    let ghost wanted = take_var_ints(seq![], n as nat, r@);
    let mut ids: Vec<i32> = Vec::new();
    let mut left: usize = n;
    while left > 0
        invariant
            left <= n,
            ids.len() == n - left,
            wanted == take_var_ints(ids@, left as nat, r@),
        decreases left,
    {
        let id: i32 = wire::get_var_int(r)?;
        ids.push(id);
        left = left - 1;
    }
    Ok(ids)
}

fn read_block_palette(bits: u8, r: &mut &[u8]) -> (res: Result<Vec<i32>, ReadingError>)
    ensures
        match take_block_palette(bits, old(r)@) {
            Some((ids, rest)) => res is Ok && res->Ok_0@ == ids && final(r)@ == rest,
            None => res is Err,
        },
        res is Ok ==> bits <= 32 && (bits == 0 ==> res->Ok_0.len() == 1),
{
    if bits == 0 {
        return read_var_ints(1, r);
    }
    if bits <= MAX_INDIRECT_BLOCK_BITS {
        let n: i32 = wire::get_var_int(r)?;
        if n < 1 || n > 4096 {
            return Err(ReadingError::Malformed);
        }
        return read_var_ints(n as usize, r);
    }
    if bits <= 32 {
        return Ok(Vec::new());
    }
    Err(ReadingError::Malformed)
}

#[verifier::loop_isolation(false)]
fn find_states(entries: &Vec<u32>, palette: &Vec<i32>, indirect: bool) -> (res: Option<Vec<i32>>)
    ensures
        match res {
            Some(states) => states_of(entries@, palette@, indirect) == Some(states@),
            None => states_of(entries@, palette@, indirect) is None,
        },
{
    let mut states: Vec<i32> = Vec::new();
    let mut i: usize = 0;
    while i < entries.len()
        invariant
            i <= entries.len(),
            states.len() == i,
            indirect ==> forall|k: int|
                0 <= k < i ==> (#[trigger] entries@[k]) < palette.len() && states@[k] == palette@[entries@[k] as int],
            !indirect ==> forall|k: int|
                0 <= k < i ==> (#[trigger] entries@[k]) <= i32::MAX && states@[k] == entries@[k] as i32,
        decreases entries.len() - i,
    {
        let entry: u32 = entries[i];
        if indirect {
            if entry as u64 >= palette.len() as u64 {
                return None;
            }
            states.push(palette[entry as usize]);
        } else {
            if entry > 0x7fff_ffff {
                return None;
            }
            states.push(entry as i32);
        }
        i = i + 1;
    }
    assert(states@ =~= states_of(entries@, palette@, indirect).unwrap());
    Some(states)
}

#[verifier::loop_isolation(false)]
fn same_states(state: i32) -> (res: Vec<i32>)
    ensures
        res@ == Seq::new(BLOCKS_PER_SECTION as nat, |i: int| state),
{
    let mut states: Vec<i32> = Vec::new();
    while states.len() < BLOCKS_PER_SECTION
        invariant
            states.len() <= BLOCKS_PER_SECTION,
            forall|k: int| 0 <= k < states.len() ==> (#[trigger] states@[k]) == state,
        decreases BLOCKS_PER_SECTION - states.len(),
    {
        states.push(state);
    }
    assert(states@ =~= Seq::new(BLOCKS_PER_SECTION as nat, |i: int| state));
    states
}

/// Reads the states of a section's blocks.
pub fn read_block_states(r: &mut &[u8], version: Version) -> (res: Result<Vec<i32>, ReadingError>)
    ensures
        match take_block_states(old(r)@, version) {
            Some((states, rest)) => res is Ok && res->Ok_0@ == states && final(r)@ == rest,
            None => res is Err,
        },
{
    let bits: u8 = wire::get_u8(r)?;
    let palette: Vec<i32> = read_block_palette(bits, r)?;
    let expected: usize = palette::packed_long_count(BLOCKS_PER_SECTION, bits);
    let mut count: usize = expected;
    if version < version::V_1_21_5 {
        let n: i32 = wire::get_var_int(r)?;
        if n < 0 || n as u64 > expected as u64 {
            return Err(ReadingError::Malformed);
        }
        count = n as usize;
    }
    let words: Vec<u64> = palette::get_words(count, r)?;
    if bits == 0 {
        return Ok(same_states(palette[0]));
    }
    let entries: Vec<u32> = match palette::unpack(&words, bits, BLOCKS_PER_SECTION) {
        Some(entries) => entries,
        None => {
            return Err(ReadingError::Malformed);
        },
    };
    match find_states(&entries, &palette, bits <= MAX_INDIRECT_BLOCK_BITS) {
        Some(states) => Ok(states),
        None => Err(ReadingError::Malformed),
    }
}

/// The places from the i-th on whose states are accepted.
pub open spec fn matching_from(states: Seq<i32>, accepts: spec_fn(i32) -> bool, i: int) -> Seq<usize>
    decreases states.len() - i,
{
    if i < 0 || i >= states.len() {
        seq![]
    } else if accepts(states[i]) {
        seq![i as usize] + matching_from(states, accepts, i + 1)
    } else {
        matching_from(states, accepts, i + 1)
    }
}

/// What a function accepts.
pub open spec fn accepted<F: Fn(i32) -> bool>(matches: F) -> spec_fn(i32) -> bool {
    |state: i32| matches.ensures((state,), true)
}

/// Whether a function answers every state, and always the same.
pub open spec fn is_decided<F: Fn(i32) -> bool>(matches: F) -> bool {
    &&& forall|state: i32| #[trigger] matches.requires((state,))
    &&& forall|state: i32|
        !(#[trigger] matches.ensures((state,), true) && #[trigger] matches.ensures((state,), false))
}

/// The places of a section's blocks whose states are accepted.
#[verifier::loop_isolation(false)]
pub fn matching_indices_in_block_palette<F: Fn(i32) -> bool>(
    r: &mut &[u8],
    version: Version,
    matches: &F,
) -> (res: Result<Vec<usize>, ReadingError>)
    requires
        is_decided(*matches),
    ensures
        match take_block_states(old(r)@, version) {
            Some((states, rest)) => res is Ok && res->Ok_0@ == matching_from(states, accepted(*matches), 0)
                && final(r)@ == rest,
            None => res is Err,
        },
{
    let states: Vec<i32> = read_block_states(r, version)?;
    let ghost accepts = accepted(*matches);
    let mut found: Vec<usize> = Vec::new();
    let mut i: usize = 0;
    proof {
        assert(found@ + matching_from(states@, accepts, 0) =~= matching_from(states@, accepts, 0));
    }
    while i < states.len()
        invariant
            i <= states.len(),
            matching_from(states@, accepts, 0) == found@ + matching_from(states@, accepts, i as int),
        decreases states.len() - i,
    {
        let ghost before = found@;
        if matches(states[i]) {
            found.push(i);
            assert(found@ + matching_from(states@, accepts, i + 1) =~= before + (seq![i] + matching_from(
                states@,
                accepts,
                i + 1,
            )));
        }
        i = i + 1;
    }
    assert(found@ + matching_from(states@, accepts, i as int) =~= found@);
    Ok(found)
}

/// The position of a block by its place in a section: x is the lowest four bits, z
/// the next, y the highest.
pub open spec fn position_of(index: usize, x: i32, section_y: int, z: i32) -> i64 {
    position::packed(
        x * 16 + index as int % 16,
        section_y + index as int / 256 % 16,
        z * 16 + index as int / 16 % 16,
    )
}

pub open spec fn positions_of(found: Seq<usize>, x: i32, section_y: int, z: i32) -> Seq<i64> {
    found.map_values(|index: usize| position_of(index, x, section_y, z))
}

/// The positions of accepted blocks in the sections from the given one on, behind
/// those that were found; nothing where there are too many.
pub open spec fn positions_found(
    done: Seq<i64>,
    s: Seq<u8>,
    section: nat,
    parts: (i32, i32),
    min_y: i32,
    accepts: spec_fn(i32) -> bool,
    to: &Target,
) -> Option<Seq<i64>>
    decreases s.len(),
{
    if all_zero(s) {
        Some(done)
    } else {
        match wire::take_bytes(s, counts_size(to.version)) {
            Some((counts, t)) => match take_block_states(t, to.version) {
                Some((states, u)) => match container_copied(
                    u,
                    BIOMES_PER_SECTION as nat,
                    MAX_INDIRECT_BIOME_BITS,
                    None,
                    to.version,
                ) {
                    Some((biomes, rest)) => {
                        let more = done + positions_of(
                            matching_from(states, accepts, 0),
                            parts.0,
                            min_y + 16 * section,
                            parts.1,
                        );
                        if more.len() > MAX_CHUNK_BLOCK_ENTITIES || rest.len() >= s.len() {
                            None
                        } else {
                            positions_found(more, rest, section + 1, parts, min_y, accepts, to)
                        }
                    },
                    None => None,
                },
                None => None,
            },
            None => None,
        }
    }
}

/// The positions of the accepted blocks of a chunk.
pub open spec fn chunk_positions(
    payload: Seq<u8>,
    min_y: i32,
    accepts: spec_fn(i32) -> bool,
    to: &Target,
) -> Option<Seq<i64>> {
    if to.version < OLDEST_LAYOUT {
        None
    } else {
        match parts_of(payload, to) {
            Some(parts) => positions_found(seq![], parts.sections, 0, (parts.x, parts.z), min_y, accepts, to),
            None => None,
        }
    }
}

#[verifier::loop_isolation(false)]
fn add_positions(out: &mut Vec<i64>, found: &Vec<usize>, x: i32, section_y: i64, z: i32)
    requires
        -0x8000_0000 <= section_y < 0x4000_0000_0000_0000,
    ensures
        final(out)@ == old(out)@ + positions_of(found@, x, section_y as int, z),
{
    let ghost before = out@;
    let mut i: usize = 0;
    while i < found.len()
        invariant
            i <= found.len(),
            out@ == before + positions_of(found@, x, section_y as int, z).take(i as int),
        decreases found.len() - i,
    {
        let index: usize = found[i];
        out.push(
            position::pack_block_position(
                x as i64 * 16 + (index % 16) as i64,
                section_y + (index / 256 % 16) as i64,
                z as i64 * 16 + (index / 16 % 16) as i64,
            ),
        );
        assert(out@ =~= before + positions_of(found@, x, section_y as int, z).take(i + 1));
        i = i + 1;
    }
    assert(out@ =~= before + positions_of(found@, x, section_y as int, z));
}

/// One section's accepted positions: the counts, the blocks, and the biomes behind
/// them.
fn find_in_section<F: Fn(i32) -> bool>(r: &mut &[u8], to: &Target, matches: &F) -> (res: Result<
    Vec<usize>,
    ReadingError,
>)
    requires
        is_decided(*matches),
    ensures
        match wire::take_bytes(old(r)@, counts_size(to.version)) {
            Some((counts, t)) => match take_block_states(t, to.version) {
                Some((states, u)) => match container_copied(
                    u,
                    BIOMES_PER_SECTION as nat,
                    MAX_INDIRECT_BIOME_BITS,
                    None,
                    to.version,
                ) {
                    Some((biomes, rest)) => res is Ok && res->Ok_0@ == matching_from(states, accepted(*matches), 0)
                        && final(r)@ == rest,
                    None => res is Err,
                },
                None => res is Err,
            },
            None => res is Err,
        },
{
    let size: usize = if to.version >= version::V_26_1 { 4 } else { 2 };
    let _counts: &[u8] = wire::get_bytes(r, size)?;
    let found: Vec<usize> = matching_indices_in_block_palette(r, to.version, matches)?;
    let mut biomes: Vec<u8> = Vec::new();
    copy_container(r, &mut biomes, BIOMES_PER_SECTION, MAX_INDIRECT_BIOME_BITS, None, to.version)?;
    Ok(found)
}

/// Finds the blocks of a chunk whose states are accepted. The chunk has been
/// renumbered for the client.
#[verifier::loop_isolation(false)]
pub fn matching_block_positions<F: Fn(i32) -> bool>(payload: &[u8], to: &Target, min_y: i32, matches: F) -> (res:
    Option<Vec<i64>>)
    requires
        is_decided(matches),
    ensures
        match chunk_positions(payload@, min_y, accepted(matches), to) {
            Some(positions) => res is Some && res.unwrap()@ == positions,
            None => res is None,
        },
{
    if to.version < OLDEST_LAYOUT {
        return None;
    }
    let parts: ChunkParts<'_> = match read_parts(payload, to) {
        Some(parts) => parts,
        None => {
            return None;
        },
    };
    let ghost accepts = accepted(matches);
    let ghost place = (parts.x, parts.z);
    let mut r: &[u8] = parts.sections;
    let mut out: Vec<i64> = Vec::new();
    let mut section: usize = 0;
    let ghost wanted = positions_found(seq![], r@, 0, place, min_y, accepts, to);
    while !is_zero(r)
        invariant
            section + r@.len() <= parts.sections@.len(),
            out.len() <= MAX_CHUNK_BLOCK_ENTITIES,
            wanted == positions_found(out@, r@, section as nat, place, min_y, accepts, to),
        decreases r@.len(),
    {
        let length: usize = r.len();
        assert(section < parts.sections.len());
        let found: Vec<usize> = match find_in_section(&mut r, to, &matches) {
            Ok(found) => found,
            Err(_) => {
                return None;
            },
        };
        add_positions(&mut out, &found, parts.x, min_y as i64 + 16 * section as i64, parts.z);
        if out.len() > MAX_CHUNK_BLOCK_ENTITIES || r.len() >= length {
            return None;
        }
        section = section + 1;
    }
    Some(out)
}

// --- block entities ----------------------------------------------------------------------------

/// A block entity of a chunk packet: its place in the column, its height, its kind
/// and its tag as it stands.
#[verifier::ext_equal]
pub struct Placed {
    pub xz: u8,
    pub y: u16,
    pub kind: i32,
    pub tag: Seq<u8>,
}

pub open spec fn take_placed(s: Seq<u8>, named: bool) -> Option<(Placed, Seq<u8>)> {
    match wire::take_u8(s) {
        Some((xz, s1)) => match wire::take_u16(s1) {
            Some((y, s2)) => match wire::take_var_int(s2) {
                Some((kind, s3)) => match raw_nbt(s3, named) {
                    Some((tag, rest)) => Some((Placed { xz, y, kind, tag }, rest)),
                    None => None,
                },
                None => None,
            },
            None => None,
        },
        None => None,
    }
}

pub open spec fn enc_placed(entity: Placed) -> Seq<u8> {
    seq![entity.xz] + wire::enc_u16(entity.y) + wire::enc_var_int(entity.kind) + entity.tag
}

/// Whether a block of a column has coordinates that fit.
pub open spec fn coordinate_fits(chunk: i32, local: int) -> bool {
    i32::MIN <= chunk * 16 && chunk * 16 + local <= i32::MAX
}

/// The position of a block entity.
pub open spec fn placed_at(entity: Placed, x: i32, z: i32) -> i64 {
    position::packed(
        x * 16 + entity.xz as int / 16,
        nbt::i16_of(entity.y) as int,
        z * 16 + entity.xz as int % 16,
    )
}

/// `n` block entities, copied, with their positions, behind those that were read.
pub open spec fn entities_copied(
    done: Seq<u8>,
    positions: Set<i64>,
    n: nat,
    s: Seq<u8>,
    x: i32,
    z: i32,
    named: bool,
) -> Option<(Seq<u8>, Set<i64>, Seq<u8>)>
    decreases n,
{
    if n == 0 {
        Some((done, positions, s))
    } else {
        match take_placed(s, named) {
            Some((entity, rest)) => if coordinate_fits(x, entity.xz as int / 16) && coordinate_fits(
                z,
                entity.xz as int % 16,
            ) {
                entities_copied(
                    done + enc_placed(entity),
                    positions.insert(placed_at(entity, x, z)),
                    (n - 1) as nat,
                    rest,
                    x,
                    z,
                    named,
                )
            } else {
                None
            },
            None => None,
        }
    }
}

/// The block entity that stands for an addition: its tag is empty.
pub open spec fn addition(position: i64, kind: i32, named: bool) -> Placed {
    let (x, y, z) = position::unpacked(position);
    Placed {
        xz: (x % 16 * 16 + z % 16) as u8,
        y: (y % 0x1_0000) as u16,
        kind,
        tag: nbt::enc_nbt(Some(nbt::compound_tag(seq![])), named),
    }
}

/// Whether a position lies in a column.
pub open spec fn in_column(position: i64, x: i32, z: i32) -> bool {
    let (px, py, pz) = position::unpacked(position);
    px / 16 == x && pz / 16 == z
}

/// The additions from the i-th on, each where no block entity stands yet, behind
/// what was written: nothing where one lies outside the column.
pub open spec fn additions_written(
    done: Seq<u8>,
    positions: Set<i64>,
    added: nat,
    additions: Seq<(i64, i32)>,
    i: int,
    x: i32,
    z: i32,
    named: bool,
) -> Option<(Seq<u8>, nat)>
    decreases additions.len() - i,
{
    if i < 0 || i >= additions.len() {
        Some((done, added))
    } else {
        let (position, kind) = additions[i];
        if positions.contains(position) {
            additions_written(done, positions, added, additions, i + 1, x, z, named)
        } else if !in_column(position, x, z) {
            None
        } else {
            additions_written(
                done + enc_placed(addition(position, kind, named)),
                positions.insert(position),
                added + 1,
                additions,
                i + 1,
                x,
                z,
                named,
            )
        }
    }
}

/// A chunk with block entities added, each where none stands yet; what is there
/// stays, and so does the light.
#[verifier::opaque]
pub open spec fn entities_appended(payload: Seq<u8>, additions: Seq<(i64, i32)>, to: &Target) -> Option<Seq<u8>> {
    let named = version::nbt_is_named(to.version);
    if to.version < OLDEST_LAYOUT || additions.len() > MAX_CHUNK_BLOCK_ENTITIES {
        None
    } else {
        match parts_of(payload, to) {
            Some(parts) => match wire::take_var_int(parts.tail) {
                Some((n, s)) => if n < 0 || n + additions.len() > MAX_CHUNK_BLOCK_ENTITIES {
                    None
                } else {
                    match entities_copied(seq![], Set::empty(), n as nat, s, parts.x, parts.z, named) {
                        Some((old, positions, rest)) => match additions_written(
                            old,
                            positions,
                            0,
                            additions,
                            0,
                            parts.x,
                            parts.z,
                            named,
                        ) {
                            Some((all, added)) => Some(
                                wire::enc_i32(parts.x) + wire::enc_i32(parts.z) + parts.heightmaps + wire::enc_len(
                                    parts.sections.len(),
                                ) + parts.sections + wire::enc_len(n as nat + added) + all + rest,
                            ),
                            None => None,
                        },
                        None => None,
                    }
                },
                None => None,
            },
            None => None,
        }
    }
}

struct PlacedEntity<'a> {
    xz: u8,
    y: u16,
    kind: i32,
    tag: &'a [u8],
}

impl<'a> View for PlacedEntity<'a> {
    type V = Placed;

    closed spec fn view(&self) -> Placed {
        Placed { xz: self.xz, y: self.y, kind: self.kind, tag: self.tag@ }
    }
}

fn read_placed<'a>(r: &mut &'a [u8], named: bool) -> (res: Result<PlacedEntity<'a>, ReadingError>)
    ensures
        match take_placed(old(r)@, named) {
            Some((entity, rest)) => res is Ok && res->Ok_0@ == entity && final(r)@ == rest,
            None => res is Err,
        },
{
    let xz: u8 = wire::get_u8(r)?;
    let y: u16 = wire::get_u16(r)?;
    let kind: i32 = wire::get_var_int(r)?;
    let tag: &'a [u8] = get_raw_nbt(r, named)?;
    Ok(PlacedEntity { xz, y, kind, tag })
}

fn write_placed(out: &mut Vec<u8>, entity: &PlacedEntity<'_>)
    ensures
        final(out)@ == old(out)@ + enc_placed(entity@),
{
    let ghost before = out@;
    out.push(entity.xz);
    wire::write_u16(out, entity.y);
    wire::write_var_int(out, entity.kind);
    wire::write_bytes(out, entity.tag);
    assert(out@ =~= before + enc_placed(entity@));
}

fn fits(chunk: i32, local: i32) -> (res: bool)
    requires
        0 <= local < 16,
    ensures
        res == coordinate_fits(chunk, local as int),
{
    let start: i64 = chunk as i64 * 16;
    -0x8000_0000 <= start && start + local as i64 <= 0x7fff_ffff
}

fn height(y: u16) -> (res: i64)
    ensures
        res == nbt::i16_of(y),
{
    if y >= 0x8000 {
        y as i64 - 0x1_0000
    } else {
        y as i64
    }
}

#[verifier::loop_isolation(false)]
fn copy_entities(
    n: usize,
    r: &mut &[u8],
    positions: &mut HashSet<i64>,
    x: i32,
    z: i32,
    named: bool,
) -> (res: Option<Vec<u8>>)
    ensures
        match entities_copied(seq![], old(positions)@, n as nat, old(r)@, x, z, named) {
            Some((bytes, all, rest)) => res is Some && res.unwrap()@ == bytes && final(positions)@ == all
                && final(r)@ == rest,
            None => res is None,
        },
{
    let ghost wanted = entities_copied(seq![], positions@, n as nat, r@, x, z, named);
    let mut out: Vec<u8> = Vec::new();
    let mut left: usize = n;
    while left > 0
        invariant
            wanted == entities_copied(out@, positions@, left as nat, r@, x, z, named),
        decreases left,
    {
        let entity: PlacedEntity<'_> = match read_placed(r, named) {
            Ok(entity) => entity,
            Err(_) => {
                return None;
            },
        };
        let local_x: i32 = (entity.xz / 16) as i32;
        let local_z: i32 = (entity.xz % 16) as i32;
        if !fits(x, local_x) || !fits(z, local_z) {
            return None;
        }
        let at: i64 = position::pack_block_position(
            x as i64 * 16 + local_x as i64,
            height(entity.y),
            z as i64 * 16 + local_z as i64,
        );
        positions.insert(at);
        write_placed(&mut out, &entity);
        left = left - 1;
    }
    Some(out)
}

fn empty_tag(named: bool) -> (res: Vec<u8>)
    ensures
        res@ == nbt::enc_nbt(Some(nbt::compound_tag(seq![])), named),
{
    let mut out: Vec<u8> = Vec::new();
    let compound: nbt::NbtCompound = nbt::NbtCompound::new();
    nbt::write_nbt(&mut out, &compound.to_tag(), named);
    assert(compound@ =~= seq![]);
    out
}

/// Writes an addition; `false` where it lies outside the column.
fn write_addition(out: &mut Vec<u8>, at: i64, kind: i32, x: i32, z: i32, named: bool) -> (res: bool)
    ensures
        res == in_column(at, x, z),
        res ==> final(out)@ == old(out)@ + enc_placed(addition(at, kind, named)),
{
    let (px, py, pz): (i32, i32, i32) = position::unpack_block_position(at);
    let local_x: i64 = px as i64 - x as i64 * 16;
    let local_z: i64 = pz as i64 - z as i64 * 16;
    if local_x < 0 || local_x > 15 || local_z < 0 || local_z > 15 {
        return false;
    }
    let tag: Vec<u8> = empty_tag(named);
    let y: u16 = if py < 0 { (py + 0x1_0000) as u16 } else { py as u16 };
    let entity: PlacedEntity<'_> = PlacedEntity {
        xz: (local_x * 16 + local_z) as u8,
        y,
        kind,
        tag: tag.as_slice(),
    };
    assert(entity@ == addition(at, kind, named)) by {
        assert(local_x == px as int % 16);
        assert(local_z == pz as int % 16);
        assert(y == py as int % 0x1_0000);
    }
    write_placed(out, &entity);
    true
}

#[verifier::loop_isolation(false)]
fn write_additions(
    out: &mut Vec<u8>,
    positions: &mut HashSet<i64>,
    additions: &[(i64, i32)],
    x: i32,
    z: i32,
    named: bool,
) -> (res: Option<usize>)
    ensures
        match additions_written(old(out)@, old(positions)@, 0, additions@, 0, x, z, named) {
            Some((bytes, added)) => res is Some && res.unwrap() == added && final(out)@ == bytes && added
                <= additions.len(),
            None => res is None,
        },
{
    let ghost wanted = additions_written(out@, positions@, 0, additions@, 0, x, z, named);
    let mut added: usize = 0;
    let mut i: usize = 0;
    while i < additions.len()
        invariant
            i <= additions.len(),
            added <= i,
            wanted == additions_written(out@, positions@, added as nat, additions@, i as int, x, z, named),
        decreases additions.len() - i,
    {
        let at: i64 = additions[i].0;
        if !positions.contains(&at) {
            if !write_addition(out, at, additions[i].1, x, z, named) {
                return None;
            }
            positions.insert(at);
            added = added + 1;
        }
        i = i + 1;
    }
    Some(added)
}

/// Adds block entities to a chunk packet, each by its packed position and its kind.
pub fn append_chunk_block_entities(payload: &[u8], additions: &[(i64, i32)], to: &Target) -> (res: Option<Vec<u8>>)
    ensures
        gave_bytes(res, entities_appended(payload@, additions@, to)),
{
    reveal(entities_appended);
    if to.version < OLDEST_LAYOUT || additions.len() > MAX_CHUNK_BLOCK_ENTITIES {
        return None;
    }
    let named: bool = version::has_named_nbt(to.version);
    let parts: ChunkParts<'_> = match read_parts(payload, to) {
        Some(parts) => parts,
        None => {
            return None;
        },
    };
    let mut r: &[u8] = parts.tail;
    let n: i32 = match wire::get_var_int(&mut r) {
        Ok(n) => n,
        Err(_) => {
            return None;
        },
    };
    if n < 0 || n as u64 + additions.len() as u64 > MAX_CHUNK_BLOCK_ENTITIES as u64 {
        return None;
    }
    let mut positions: HashSet<i64> = HashSet::new();
    let mut entries: Vec<u8> = match copy_entities(n as usize, &mut r, &mut positions, parts.x, parts.z, named) {
        Some(entries) => entries,
        None => {
            return None;
        },
    };
    let added: usize = match write_additions(&mut entries, &mut positions, additions, parts.x, parts.z, named) {
        Some(added) => added,
        None => {
            return None;
        },
    };
    let mut out: Vec<u8> = Vec::new();
    wire::write_i32(&mut out, parts.x);
    wire::write_i32(&mut out, parts.z);
    wire::write_bytes(&mut out, parts.heightmaps.as_slice());
    wire::write_len(&mut out, parts.sections.len());
    wire::write_bytes(&mut out, parts.sections);
    wire::write_len(&mut out, n as usize + added);
    wire::write_bytes(&mut out, entries.as_slice());
    wire::write_bytes(&mut out, r);
    assert(out@ =~= wire::enc_i32(parts.x) + wire::enc_i32(parts.z) + parts.heightmaps@ + wire::enc_len(
        parts.sections.len() as nat,
    ) + parts.sections@ + wire::enc_len((n + added) as nat) + entries@ + r@);
    Some(out)
}

// --- laws --------------------------------------------------------------------------------------

/// Adding nothing to a chunk without block entities leaves the payload's parts as
/// they are.
pub proof fn nothing_added_keeps_the_chunk(payload: Seq<u8>, to: &Target)
    requires
        to.version >= OLDEST_LAYOUT,
        parts_of(payload, to) is Some,
        wire::take_var_int(parts_of(payload, to).unwrap().tail) matches Some((n, rest)) && n == 0,
    ensures
        ({
            let parts = parts_of(payload, to).unwrap();
            let rest = wire::take_var_int(parts.tail).unwrap().1;
            entities_appended(payload, seq![], to) == Some(
                wire::enc_i32(parts.x) + wire::enc_i32(parts.z) + parts.heightmaps + wire::enc_len(
                    parts.sections.len(),
                ) + parts.sections + wire::enc_len(0) + rest,
            )
        }),
{
    reveal(entities_appended);
    let parts = parts_of(payload, to).unwrap();
    let rest = wire::take_var_int(parts.tail).unwrap().1;
    assert(wire::enc_i32(parts.x) + wire::enc_i32(parts.z) + parts.heightmaps + wire::enc_len(parts.sections.len())
        + parts.sections + wire::enc_len(0) + Seq::<u8>::empty() + rest =~= wire::enc_i32(parts.x) + wire::enc_i32(
        parts.z,
    ) + parts.heightmaps + wire::enc_len(parts.sections.len()) + parts.sections + wire::enc_len(0) + rest);
}

/// A position that already has a block entity gets no second one: an addition that
/// repeats an earlier position changes nothing.
pub proof fn repeated_additions_are_ignored(
    done: Seq<u8>,
    positions: Set<i64>,
    added: nat,
    position: i64,
    kind: i32,
    x: i32,
    z: i32,
    named: bool,
)
    requires
        positions.contains(position),
    ensures
        additions_written(done, positions, added, seq![(position, kind)], 0, x, z, named) == Some((done, added)),
{
    reveal_with_fuel(additions_written, 2);
}

proof fn lemma_raw_settled(s: Seq<u8>, named: bool, more: Seq<u8>)
    ensures
        raw_nbt(s, named) matches Some((tag, rest)) ==> raw_nbt(tag + more, named) == Some((tag, more)),
{
    if let Some((tag, rest)) = raw_nbt(s, named) {
        nbt::tags_are_cut(s, named);
        nbt::tags_extend(tag, named, more);
        assert(Seq::<u8>::empty() + more =~= more);
        assert((tag + more).take(tag.len() as int) =~= tag);
        assert((tag + more).len() - more.len() == tag.len());
        if named && s[0] != nbt::TAG_END {
            assert(nbt::drop_text(tag.skip(1)) is Some);
            assert((tag + more).skip(1)[0] == s.skip(1)[0]);
            assert((tag + more).skip(1)[1] == s.skip(1)[1]);
        }
    }
}

/// Whether a block entity of a column is read back from its bytes as it was.
pub open spec fn is_settled(entity: Placed, x: i32, z: i32, named: bool) -> bool {
    &&& coordinate_fits(x, entity.xz as int / 16)
    &&& coordinate_fits(z, entity.xz as int % 16)
    &&& forall|more: Seq<u8>| raw_nbt(#[trigger] (entity.tag + more), named) == Some((entity.tag, more))
}

pub open spec fn all_settled(entities: Seq<Placed>, x: i32, z: i32, named: bool) -> bool {
    forall|i: int| 0 <= i < entities.len() ==> is_settled(#[trigger] entities[i], x, z, named)
}

pub open spec fn enc_all_placed(entities: Seq<Placed>) -> Seq<u8>
    decreases entities.len(),
{
    if entities.len() == 0 {
        seq![]
    } else {
        enc_placed(entities[0]) + enc_all_placed(entities.skip(1))
    }
}

/// The positions, with those of some block entities.
pub open spec fn with_places(positions: Set<i64>, entities: Seq<Placed>, x: i32, z: i32) -> Set<i64>
    decreases entities.len(),
{
    if entities.len() == 0 {
        positions
    } else {
        with_places(positions.insert(placed_at(entities[0], x, z)), entities.skip(1), x, z)
    }
}

proof fn lemma_places_grow(positions: Set<i64>, entities: Seq<Placed>, x: i32, z: i32, at: i64)
    requires
        positions.contains(at),
    ensures
        with_places(positions, entities, x, z).contains(at),
    decreases entities.len(),
{
    if entities.len() > 0 {
        lemma_places_grow(positions.insert(placed_at(entities[0], x, z)), entities.skip(1), x, z, at);
    }
}

proof fn lemma_joined(positions: Set<i64>, a: Seq<Placed>, b: Seq<Placed>, x: i32, z: i32)
    ensures
        enc_all_placed(a + b) == enc_all_placed(a) + enc_all_placed(b),
        with_places(positions, a + b, x, z) == with_places(with_places(positions, a, x, z), b, x, z),
    decreases a.len(),
{
    if a.len() == 0 {
        assert(a + b =~= b);
        assert(enc_all_placed(a) + enc_all_placed(b) =~= enc_all_placed(b));
    } else {
        lemma_joined(positions.insert(placed_at(a[0], x, z)), a.skip(1), b, x, z);
        assert((a + b).skip(1) =~= a.skip(1) + b);
        assert(enc_all_placed(a + b) =~= enc_all_placed(a) + enc_all_placed(b));
    }
}

proof fn lemma_placed_again(entity: Placed, x: i32, z: i32, named: bool, more: Seq<u8>)
    requires
        is_settled(entity, x, z, named),
    ensures
        take_placed(enc_placed(entity) + more, named) == Some((entity, more)),
{
    let s = enc_placed(entity) + more;
    let kind = wire::enc_var_int(entity.kind);
    let behind = kind + (entity.tag + more);
    assert(s.skip(1) =~= wire::enc_u16(entity.y) + behind);
    assert(s.skip(1).skip(2) =~= behind);
    assert(wire::take_u16(s.skip(1)) == Some((entity.y, behind)));
    wire::var_int_round_trip(entity.kind, entity.tag + more);
}

/// The block entities that were copied.
proof fn lemma_copied(
    done: Seq<u8>,
    positions: Set<i64>,
    n: nat,
    s: Seq<u8>,
    x: i32,
    z: i32,
    named: bool,
) -> (entities: Seq<Placed>)
    requires
        entities_copied(done, positions, n, s, x, z, named) is Some,
    ensures
        entities.len() == n,
        all_settled(entities, x, z, named),
        entities_copied(done, positions, n, s, x, z, named).unwrap().0 == done + enc_all_placed(entities),
        entities_copied(done, positions, n, s, x, z, named).unwrap().1 == with_places(positions, entities, x, z),
    decreases n,
{
    if n == 0 {
        assert(done + enc_all_placed(seq![]) =~= done);
        seq![]
    } else {
        let (entity, rest) = take_placed(s, named).unwrap();
        let next = positions.insert(placed_at(entity, x, z));
        let others = lemma_copied(done + enc_placed(entity), next, (n - 1) as nat, rest, x, z, named);
        let entities = seq![entity] + others;
        assert(entities.skip(1) =~= others);
        assert(done + enc_placed(entity) + enc_all_placed(others) =~= done + enc_all_placed(entities));
        let raw = wire::take_var_int(wire::take_u16(wire::take_u8(s).unwrap().1).unwrap().1).unwrap().1;
        assert forall|more: Seq<u8>| raw_nbt(#[trigger] (entity.tag + more), named) == Some((entity.tag, more)) by {
            lemma_raw_settled(raw, named, more);
        }
        assert forall|i: int| 0 <= i < entities.len() implies is_settled(#[trigger] entities[i], x, z, named) by {
            if i > 0 {
                assert(entities[i] == others[i - 1]);
            }
        }
        entities
    }
}

proof fn lemma_copied_again(
    done: Seq<u8>,
    positions: Set<i64>,
    entities: Seq<Placed>,
    rest: Seq<u8>,
    x: i32,
    z: i32,
    named: bool,
)
    requires
        all_settled(entities, x, z, named),
    ensures
        entities_copied(done, positions, entities.len(), enc_all_placed(entities) + rest, x, z, named) == Some(
            (done + enc_all_placed(entities), with_places(positions, entities, x, z), rest),
        ),
    decreases entities.len(),
{
    if entities.len() == 0 {
        assert(enc_all_placed(entities) + rest =~= rest);
        assert(done + enc_all_placed(entities) =~= done);
    } else {
        let entity = entities[0];
        let others = entities.skip(1);
        let behind = enc_all_placed(others) + rest;
        assert(enc_all_placed(entities) + rest =~= enc_placed(entity) + behind);
        assert(is_settled(entity, x, z, named));
        lemma_placed_again(entity, x, z, named, behind);
        assert(all_settled(others, x, z, named)) by {
            assert forall|i: int| 0 <= i < others.len() implies is_settled(#[trigger] others[i], x, z, named) by {
                assert(others[i] == entities[i + 1]);
            }
        }
        lemma_copied_again(
            done + enc_placed(entity),
            positions.insert(placed_at(entity, x, z)),
            others,
            rest,
            x,
            z,
            named,
        );
        assert(done + enc_placed(entity) + enc_all_placed(others) =~= done + enc_all_placed(entities));
    }
}

/// An addition stands where it was asked for, and is read back as it was.
proof fn lemma_addition(at: i64, kind: i32, x: i32, z: i32, named: bool)
    requires
        in_column(at, x, z),
    ensures
        placed_at(addition(at, kind, named), x, z) == at,
        is_settled(addition(at, kind, named), x, z, named),
{
    let entity = addition(at, kind, named);
    let (px, py, pz) = position::unpacked(at);
    position::unpacked_positions_come_back(at);
    assert(entity.xz as int / 16 == px % 16 && entity.xz as int % 16 == pz % 16);
    assert(nbt::i16_of(entity.y) == py);
    let empty = nbt::compound_tag(seq![]);
    nbt::compounds_read_back(seq![]);
    assert forall|more: Seq<u8>| raw_nbt(#[trigger] (entity.tag + more), named) == Some((entity.tag, more)) by {
        let s = entity.tag + more;
        nbt::tags_read_back(empty, named, more);
        assert(s.take(s.len() - more.len()) =~= entity.tag);
        if named {
            assert(s.skip(1)[0] == 0 && s.skip(1)[1] == 0);
        }
    }
}

/// The block entities that were added; every addition then has one in its place.
proof fn lemma_added(
    done: Seq<u8>,
    positions: Set<i64>,
    added: nat,
    additions: Seq<(i64, i32)>,
    i: int,
    x: i32,
    z: i32,
    named: bool,
) -> (entities: Seq<Placed>)
    requires
        0 <= i <= additions.len(),
        additions_written(done, positions, added, additions, i, x, z, named) is Some,
    ensures
        additions_written(done, positions, added, additions, i, x, z, named) == Some(
            (done + enc_all_placed(entities), added + entities.len()),
        ),
        all_settled(entities, x, z, named),
        forall|j: int|
            i <= j < additions.len() ==> with_places(positions, entities, x, z).contains(
                (#[trigger] additions[j]).0,
            ),
    decreases additions.len() - i,
{
    if i == additions.len() {
        assert(done + enc_all_placed(seq![]) =~= done);
        seq![]
    } else {
        let (at, kind) = additions[i];
        if positions.contains(at) {
            let entities = lemma_added(done, positions, added, additions, i + 1, x, z, named);
            lemma_places_grow(positions, entities, x, z, at);
            entities
        } else {
            let entity = addition(at, kind, named);
            lemma_addition(at, kind, x, z, named);
            let next = positions.insert(at);
            let others = lemma_added(done + enc_placed(entity), next, added + 1, additions, i + 1, x, z, named);
            let entities = seq![entity] + others;
            assert(entities.skip(1) =~= others);
            assert(done + enc_placed(entity) + enc_all_placed(others) =~= done + enc_all_placed(entities));
            lemma_places_grow(next, others, x, z, at);
            assert forall|j: int| 0 <= j < entities.len() implies is_settled(#[trigger] entities[j], x, z, named) by {
                if j > 0 {
                    assert(entities[j] == others[j - 1]);
                }
            }
            entities
        }
    }
}

proof fn lemma_nothing_to_add(
    done: Seq<u8>,
    positions: Set<i64>,
    additions: Seq<(i64, i32)>,
    i: int,
    x: i32,
    z: i32,
    named: bool,
)
    requires
        0 <= i <= additions.len(),
        forall|j: int| i <= j < additions.len() ==> positions.contains((#[trigger] additions[j]).0),
    ensures
        additions_written(done, positions, 0, additions, i, x, z, named) == Some((done, 0nat)),
    decreases additions.len() - i,
{
    if i < additions.len() {
        assert(positions.contains(additions[i].0));
        lemma_nothing_to_add(done, positions, additions, i + 1, x, z, named);
    }
}

proof fn lemma_heightmaps_settled(s: Seq<u8>, to: &Target, more: Seq<u8>)
    ensures
        heightmaps_copied(s, to) matches Some((bytes, rest)) ==> heightmaps_copied(bytes + more, to) == Some(
            (bytes, more),
        ),
{
    if to.version >= version::V_1_21_5 {
        reveal_with_fuel(shape::is_plain, 5);
        assert(shape::is_plain(heightmap_list()));
        shape::recoded_runs_are_settled(heightmap_list(), s, more, to.cat, to.version);
    } else {
        lemma_raw_settled(s, version::nbt_is_named(to.version), more);
    }
}

/// The bytes before the block entities of a chunk.
pub open spec fn enc_head(parts: Parts) -> Seq<u8> {
    wire::enc_i32(parts.x) + wire::enc_i32(parts.z) + parts.heightmaps + wire::enc_len(parts.sections.len())
        + parts.sections
}

proof fn lemma_four(a: Seq<u8>, b: Seq<u8>, c: Seq<u8>, d: Seq<u8>)
    ensures
        a + b + c + d == a + (b + (c + d)),
{
    assert(a + b + c + d =~= a + (b + (c + d)));
}

proof fn lemma_six(a: Seq<u8>, b: Seq<u8>, c: Seq<u8>, d: Seq<u8>, e: Seq<u8>, f: Seq<u8>)
    ensures
        a + b + c + d + e + f == a + (b + (c + (d + (e + f)))),
{
    assert(a + b + c + d + e + f =~= a + (b + (c + (d + (e + f)))));
}

#[verifier::spinoff_prover]
#[verifier::rlimit(60)]
proof fn lemma_head_read(parts: Parts, to: &Target, tail: Seq<u8>)
    requires
        parts.sections.len() <= i32::MAX,
        forall|more: Seq<u8>| #[trigger]
            heightmaps_copied(parts.heightmaps + more, to) == Some((parts.heightmaps, more)),
    ensures
        parts_of(enc_head(parts) + tail, to) == Some((Parts { tail, ..parts })),
{
    let n = parts.sections.len() as i32;
    let t4 = parts.sections + tail;
    let t3 = wire::enc_len(parts.sections.len()) + t4;
    let t2 = parts.heightmaps + t3;
    let t1 = wire::enc_i32(parts.z) + t2;
    let s = enc_head(parts) + tail;
    lemma_six(
        wire::enc_i32(parts.x),
        wire::enc_i32(parts.z),
        parts.heightmaps,
        wire::enc_len(parts.sections.len()),
        parts.sections,
        tail,
    );
    wire::i32_round_trip(parts.x, t1);
    wire::i32_round_trip(parts.z, t2);
    assert(heightmaps_copied(t2, to) == Some((parts.heightmaps, t3)));
    wire::len_round_trip(parts.sections.len(), t4);
    assert(wire::take_bytes(t4, n as int) == Some((parts.sections, tail))) by {
        assert(t4.take(n as int) =~= parts.sections);
        assert(t4.skip(n as int) =~= tail);
    }
}

proof fn lemma_parts_again(payload: Seq<u8>, to: &Target, tail: Seq<u8>)
    requires
        parts_of(payload, to) is Some,
    ensures
        parts_of(enc_head(parts_of(payload, to).unwrap()) + tail, to) == Some(
            (Parts { tail, ..parts_of(payload, to).unwrap() }),
        ),
{
    let parts = parts_of(payload, to).unwrap();
    let s2 = wire::take_i32(wire::take_i32(payload).unwrap().1).unwrap().1;
    assert forall|more: Seq<u8>| #[trigger]
        heightmaps_copied(parts.heightmaps + more, to) == Some((parts.heightmaps, more)) by {
        lemma_heightmaps_settled(s2, to, more);
    }
    lemma_head_read(parts, to, tail);
}

/// A second pass over a chunk in which every addition has its block entity.
proof fn lemma_second_pass(
    after: Seq<u8>,
    parts: Parts,
    all: Seq<Placed>,
    rest: Seq<u8>,
    additions: Seq<(i64, i32)>,
    to: &Target,
)
    requires
        to.version >= OLDEST_LAYOUT,
        all.len() + additions.len() <= MAX_CHUNK_BLOCK_ENTITIES,
        all_settled(all, parts.x, parts.z, version::nbt_is_named(to.version)),
        parts_of(after, to) == Some(
            (Parts { tail: wire::enc_len(all.len()) + (enc_all_placed(all) + rest), ..parts }),
        ),
        forall|j: int|
            0 <= j < additions.len() ==> with_places(Set::empty(), all, parts.x, parts.z).contains(
                (#[trigger] additions[j]).0,
            ),
    ensures
        entities_appended(after, additions, to) == Some(
            enc_head(parts) + wire::enc_len(all.len()) + enc_all_placed(all) + rest,
        ),
{
    reveal(entities_appended);
    let named = version::nbt_is_named(to.version);
    let count = all.len();
    let entries = enc_all_placed(all);
    wire::len_round_trip(count, entries + rest);
    lemma_copied_again(seq![], Set::empty(), all, rest, parts.x, parts.z, named);
    assert(Seq::<u8>::empty() + entries =~= entries);
    lemma_nothing_to_add(
        entries,
        with_places(Set::empty(), all, parts.x, parts.z),
        additions,
        0,
        parts.x,
        parts.z,
        named,
    );
}

/// What a first pass makes of a chunk.
proof fn lemma_first_pass(payload: Seq<u8>, additions: Seq<(i64, i32)>, to: &Target) -> (res: (Seq<Placed>, Seq<u8>))
    requires
        entities_appended(payload, additions, to) is Some,
    ensures
        ({
            let parts = parts_of(payload, to).unwrap();
            let (all, rest) = res;
            &&& parts_of(payload, to) is Some
            &&& to.version >= OLDEST_LAYOUT
            &&& all_settled(all, parts.x, parts.z, version::nbt_is_named(to.version))
            &&& all.len() == count_after(payload, additions, to)
            &&& entities_appended(payload, additions, to) == Some(
                enc_head(parts) + wire::enc_len(all.len()) + enc_all_placed(all) + rest,
            )
            &&& forall|j: int|
                0 <= j < additions.len() ==> with_places(Set::empty(), all, parts.x, parts.z).contains(
                    (#[trigger] additions[j]).0,
                )
        }),
{
    reveal(count_after);
    reveal(entities_appended);
    let named = version::nbt_is_named(to.version);
    let parts = parts_of(payload, to).unwrap();
    let (n, s) = wire::take_var_int(parts.tail).unwrap();
    let (old, positions, rest) = entities_copied(seq![], Set::empty(), n as nat, s, parts.x, parts.z, named).unwrap();
    let first = lemma_copied(seq![], Set::empty(), n as nat, s, parts.x, parts.z, named);
    let second = lemma_added(old, positions, 0, additions, 0, parts.x, parts.z, named);
    let all = first + second;
    lemma_joined(Set::empty(), first, second, parts.x, parts.z);
    assert(Seq::<u8>::empty() + enc_all_placed(first) =~= enc_all_placed(first));
    assert(all_settled(all, parts.x, parts.z, named)) by {
        assert forall|i: int| 0 <= i < all.len() implies is_settled(#[trigger] all[i], parts.x, parts.z, named) by {
            if i < first.len() {
                assert(all[i] == first[i]);
            } else {
                assert(all[i] == second[i - first.len()]);
            }
        }
    }
    (all, rest)
}

/// Adding the same block entities again changes nothing: every position has one by
/// then, and what is there stays, with the sections and the light.
pub proof fn additions_are_made_once(payload: Seq<u8>, additions: Seq<(i64, i32)>, to: &Target)
    requires
        entities_appended(payload, additions, to) is Some,
        count_after(payload, additions, to) + additions.len() <= MAX_CHUNK_BLOCK_ENTITIES,
    ensures
        entities_appended(entities_appended(payload, additions, to).unwrap(), additions, to) == entities_appended(
            payload,
            additions,
            to,
        ),
{
    let after = entities_appended(payload, additions, to).unwrap();
    let parts = parts_of(payload, to).unwrap();
    let (all, rest) = lemma_first_pass(payload, additions, to);
    let tail = wire::enc_len(all.len()) + (enc_all_placed(all) + rest);
    lemma_four(enc_head(parts), wire::enc_len(all.len()), enc_all_placed(all), rest);
    lemma_parts_again(payload, to, tail);
    lemma_second_pass(after, parts, all, rest, additions, to);
}

/// How many block entities a chunk has once some were added.
#[verifier::opaque]
pub open spec fn count_after(payload: Seq<u8>, additions: Seq<(i64, i32)>, to: &Target) -> nat {
    let named = version::nbt_is_named(to.version);
    let parts = parts_of(payload, to).unwrap();
    let (n, s) = wire::take_var_int(parts.tail).unwrap();
    let (old, positions, rest) = entities_copied(seq![], Set::empty(), n as nat, s, parts.x, parts.z, named).unwrap();
    n as nat + additions_written(old, positions, 0, additions, 0, parts.x, parts.z, named).unwrap().1
}

/// The states of blocks for the client.
pub open spec fn shown_states(blocks: Seq<i32>, states: Seq<Option<u32>>) -> Seq<i32> {
    blocks.map_values(|state: i32| state_remapped(state as u32, states) as i32)
}

proof fn lemma_palette_reads_back(
    done: Seq<u8>,
    n: nat,
    s: Seq<u8>,
    states: Seq<Option<u32>>,
    ids: Seq<i32>,
    shown: Seq<i32>,
    tail: Seq<u8>,
)
    ensures
        palette_copied(done, n, s, Some(states)) matches Some((out, rest)) ==> take_var_ints(ids, n, s) matches Some(
            (all, left),
        ) && left == rest && all.len() == ids.len() + n && out.len() >= done.len() && out.take(done.len() as int)
            == done && take_var_ints(shown, n, out.skip(done.len() as int) + tail) == Some(
            (shown + shown_states(all.skip(ids.len() as int), states), tail),
        ),
    decreases n,
{
    if n == 0 {
        assert(done.take(done.len() as int) =~= done);
        assert(done.skip(done.len() as int) + tail =~= tail);
        assert(shown + shown_states(ids.skip(ids.len() as int), states) =~= shown);
    } else if let Some((id, rest)) = wire::take_var_int(s) {
        if let Some(mapped) = id_remapped(id, Some(states)) {
            let more = done + wire::enc_var_int(mapped);
            lemma_palette_reads_back(more, (n - 1) as nat, rest, states, ids.push(id), shown.push(mapped), tail);
            if let Some((out, end)) = palette_copied(done, n, s, Some(states)) {
                let (all, left) = take_var_ints(ids, n, s).unwrap();
                let behind = out.skip(more.len() as int) + tail;
                assert(out.take(done.len() as int) =~= out.take(more.len() as int).take(done.len() as int));
                assert(more.take(done.len() as int) =~= done);
                assert(out.skip(done.len() as int) + tail =~= wire::enc_var_int(mapped) + behind) by {
                    assert(out.take(more.len() as int) == more);
                    assert(out =~= more + out.skip(more.len() as int));
                }
                wire::var_int_round_trip(mapped, behind);
                lemma_kept_prefix(ids.push(id), (n - 1) as nat, rest);
                assert(all.skip(ids.len() as int) =~= seq![id] + all.skip(ids.push(id).len() as int));
                assert(shown + shown_states(all.skip(ids.len() as int), states) =~= shown.push(mapped)
                    + shown_states(all.skip(ids.push(id).len() as int), states));
            }
        }
    }
}

proof fn lemma_kept_prefix(ids: Seq<i32>, n: nat, s: Seq<u8>)
    ensures
        take_var_ints(ids, n, s) matches Some((all, rest)) ==> all.len() == ids.len() + n && forall|i: int|
            0 <= i < ids.len() ==> (#[trigger] all[i]) == ids[i],
    decreases n,
{
    if n > 0 {
        if let Some((id, rest)) = wire::take_var_int(s) {
            lemma_kept_prefix(ids.push(id), (n - 1) as nat, rest);
            if let Some((all, end)) = take_var_ints(ids, n, s) {
                assert forall|i: int| 0 <= i < ids.len() implies (#[trigger] all[i]) == ids[i] by {
                    assert(all[i] == ids.push(id)[i]);
                }
            }
        }
    }
}

proof fn lemma_words_read_back(words: Seq<u64>, bits: u8, tail: Seq<u8>, version: Version)
    requires
        bits <= 32,
        words.len() == palette::long_count(BLOCKS_PER_SECTION as nat, bits),
    ensures
        take_block_words(bits, enc_container_words(words, version) + tail, version) == Some((words, tail)),
{
    let per = palette::per_long(bits) as int;
    if bits > 0 {
        assert(per >= 2) by (nonlinear_arith)
            requires
                per == 64int / bits as int,
                1 <= bits <= 32,
        ;
        assert((4096 + per - 1) / per <= 4096) by (nonlinear_arith)
            requires
                per >= 2,
        ;
    }
    palette::lemma_words_read_back(seq![], words, tail);
    assert(Seq::<u64>::empty() + words =~= words);
    if version < version::V_1_21_5 {
        let n = words.len() as i32;
        assert(palette::enc_longs(words) + tail =~= wire::enc_var_int(n) + (palette::enc_words(words) + tail));
        wire::var_int_round_trip(n, palette::enc_words(words) + tail);
    }
}

/// What the law on renumbered containers says of one of them.
pub open spec fn reads_back(s: Seq<u8>, states: Seq<Option<u32>>, version: Version, tail: Seq<u8>) -> bool {
    match (
        container_copied(s, BLOCKS_PER_SECTION as nat, MAX_INDIRECT_BLOCK_BITS, Some(states), version),
        take_block_states(s, version),
    ) {
        (Some((bytes, rest)), Some((blocks, left))) => left == rest && take_block_states(bytes + tail, version)
            == Some((shown_states(blocks, states), tail)),
        _ => true,
    }
}

/// The words of a container that is copied are those that are read.
proof fn lemma_same_words(u: Seq<u8>, bits: u8, version: Version)
    requires
        bits <= 32,
    ensures
        take_container_words(u, BLOCKS_PER_SECTION as nat, bits, version) matches Some((words, rest)) ==> words.len()
            == palette::long_count(BLOCKS_PER_SECTION as nat, bits) && take_block_words(bits, u, version) == Some(
            (words, rest),
        ),
{
    let expected = palette::long_count(BLOCKS_PER_SECTION as nat, bits);
    if version < version::V_1_21_5 {
        if let Some((n, rest)) = wire::take_var_int(u) {
            lemma_words_len(seq![], expected, rest);
        }
    } else {
        lemma_words_len(seq![], expected, u);
    }
}

proof fn lemma_uniform_reads_back(s: Seq<u8>, states: Seq<Option<u32>>, version: Version, tail: Seq<u8>)
    requires
        s.len() > 0,
        s[0] == 0,
    ensures
        reads_back(s, states, version, tail),
{
    let t = s.skip(1);
    let copied = container_copied(s, BLOCKS_PER_SECTION as nat, MAX_INDIRECT_BLOCK_BITS, Some(states), version);
    if copied is Some && take_block_states(s, version) is Some {
        let (bytes, rest) = copied.unwrap();
        let (head, u) = palette_copied(seq![], 1, t, Some(states)).unwrap();
        let (palette, u2) = take_var_ints(seq![], 1, t).unwrap();
        lemma_same_words(u, 0, version);
        let words = take_container_words(u, BLOCKS_PER_SECTION as nat, 0, version).unwrap().0;
        let after = enc_container_words(words, version) + tail;
        assert(bytes + tail =~= seq![0u8] + (head + after));
        assert((bytes + tail).skip(1) =~= head + after);
        lemma_words_read_back(words, 0, tail, version);
        let shown = shown_states(palette, states);
        lemma_palette_reads_back(seq![], 1, t, states, seq![], seq![], after);
        assert(head.skip(0) =~= head);
        assert(palette.skip(0) =~= palette);
        assert(Seq::<i32>::empty() + shown =~= shown);
        assert(take_block_palette(0, head + after) == Some((shown, after)));
        let blocks = take_block_states(s, version).unwrap().0;
        assert(shown_states(blocks, states) =~= Seq::new(BLOCKS_PER_SECTION as nat, |i: int| shown[0]));
    }
}

#[verifier::rlimit(40)]
proof fn lemma_indirect_reads_back(s: Seq<u8>, states: Seq<Option<u32>>, version: Version, tail: Seq<u8>)
    requires
        s.len() > 0,
        1 <= s[0] <= MAX_INDIRECT_BLOCK_BITS,
    ensures
        reads_back(s, states, version, tail),
{
    let bits = s[0];
    let t = s.skip(1);
    let copied = container_copied(s, BLOCKS_PER_SECTION as nat, MAX_INDIRECT_BLOCK_BITS, Some(states), version);
    if copied is Some && take_block_states(s, version) is Some {
        let (bytes, rest) = copied.unwrap();
        let (n, t2) = wire::take_var_int(t).unwrap();
        let front = wire::enc_var_int(n);
        let (head, u) = palette_copied(front, n as nat, t2, Some(states)).unwrap();
        let (palette, u2) = take_var_ints(seq![], n as nat, t2).unwrap();
        lemma_same_words(u, bits, version);
        let words = take_container_words(u, BLOCKS_PER_SECTION as nat, bits, version).unwrap().0;
        let after = enc_container_words(words, version) + tail;
        assert(bytes + tail =~= seq![bits] + (head + after));
        assert((bytes + tail).skip(1) =~= head + after);
        lemma_words_read_back(words, bits, tail, version);
        let shown = shown_states(palette, states);
        lemma_palette_reads_back(front, n as nat, t2, states, seq![], seq![], after);
        assert(palette.skip(0) =~= palette);
        assert(Seq::<i32>::empty() + shown =~= shown);
        let listed = head.skip(front.len() as int);
        assert(head =~= front + listed);
        assert(head + after =~= front + (listed + after));
        wire::var_int_round_trip(n, listed + after);
        assert(take_block_palette(bits, head + after) == Some((shown, after)));
        let indices = palette::unpacked(words, bits, BLOCKS_PER_SECTION as nat).unwrap();
        let blocks = take_block_states(s, version).unwrap().0;
        assert(states_of(indices, palette, true) == Some(blocks));
        assert(states_of(indices, shown, true).unwrap() =~= shown_states(blocks, states));
    }
}

proof fn lemma_direct_reads_back(s: Seq<u8>, states: Seq<Option<u32>>, version: Version, tail: Seq<u8>)
    requires
        s.len() > 0,
        MAX_INDIRECT_BLOCK_BITS < s[0] <= 32,
    ensures
        reads_back(s, states, version, tail),
{
    let bits = s[0];
    let t = s.skip(1);
    let copied = container_copied(s, BLOCKS_PER_SECTION as nat, MAX_INDIRECT_BLOCK_BITS, Some(states), version);
    if copied is Some && take_block_states(s, version) is Some {
        let (bytes, rest) = copied.unwrap();
        lemma_same_words(t, bits, version);
        let words = take_container_words(t, BLOCKS_PER_SECTION as nat, bits, version).unwrap().0;
        let values = palette::entries(words, bits, BLOCKS_PER_SECTION as nat);
        let mapped = all_remapped(values, states);
        let packed = palette::packed(mapped, bits);
        let after = enc_container_words(packed, version) + tail;
        assert(bytes + tail =~= seq![bits] + after);
        assert((bytes + tail).skip(1) =~= after);
        lemma_words_read_back(packed, bits, tail, version);
        palette::packed_numbers_come_back(mapped, bits);
        let blocks = take_block_states(s, version).unwrap().0;
        assert(states_of(values, seq![], false) == Some(blocks));
        assert(states_of(mapped, seq![], false).unwrap() =~= shown_states(blocks, states));
    }
}

/// A renumbered container reads back as the renumbered states of the blocks that
/// the server wrote, whichever form it has and whatever stands behind it.
pub proof fn renumbered_containers_read_back(s: Seq<u8>, states: Seq<Option<u32>>, version: Version, tail: Seq<u8>)
    ensures
        match (
            container_copied(s, BLOCKS_PER_SECTION as nat, MAX_INDIRECT_BLOCK_BITS, Some(states), version),
            take_block_states(s, version),
        ) {
            (Some((bytes, rest)), Some((blocks, left))) => left == rest && take_block_states(bytes + tail, version)
                == Some((shown_states(blocks, states), tail)),
            _ => true,
        },
{
    if s.len() > 0 {
        if s[0] == 0 {
            lemma_uniform_reads_back(s, states, version, tail);
        } else if s[0] <= MAX_INDIRECT_BLOCK_BITS {
            lemma_indirect_reads_back(s, states, version, tail);
        } else if s[0] <= 32 {
            lemma_direct_reads_back(s, states, version, tail);
        }
    }
    assert(reads_back(s, states, version, tail));
}

} // verus!
