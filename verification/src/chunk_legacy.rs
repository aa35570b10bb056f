//! Chunks for clients of 1.16.2 to 1.17.1.
//!
//! The server writes the form of 1.18. Before it, a chunk names its sections in a
//! bit mask, holds the biomes of the whole column in one list, has only blocks in
//! its sections, and holds its block entities as whole tags; the world reaches from
//! 0 to 255, and sections outside of it are cut. Light travels in a packet of its
//! own.
use std::collections::HashMap;
use vstd::prelude::*;
use vstd::arithmetic::power2::pow2;
use vstd::slice::slice_to_vec;
use crate::catalog;
use crate::chunk_remap;
use crate::mapping;
use crate::mapping::IdMapping;
use crate::nbt;
use crate::nbt::NbtCompound;
use crate::nbt::NbtTag;
use crate::palette;
use crate::shape;
use crate::text;
use crate::version;
use crate::version::Version;
use crate::wire;
use crate::wire::ReadingError;

verus! {

broadcast use vstd::std_specs::hash::group_hash_axioms;

pub const BLOCKS_PER_SECTION: usize = 4096;
pub const BIOMES_PER_SECTION: usize = 64;
/// The biomes of a column from 0 to 255.
pub const BIOMES_PER_COLUMN: usize = 1024;
/// The sections of a column from 0 to 255.
pub const SECTIONS: usize = 16;
/// The narrowest entries that clients before 1.18 read.
pub const LEGACY_BLOCK_BITS: u8 = 4;
/// The widest entries that index a palette.
pub const MAX_INDIRECT_BLOCK_BITS: u8 = 8;
pub const MAX_INDIRECT_BIOME_BITS: u8 = 3;
/// The most words of a light mask.
pub const MAX_LIGHT_MASK_LONGS: i32 = 1024;
/// The most arrays of light.
pub const MAX_LIGHT_ARRAYS: i32 = 4096;

/// A chunk for an older client, with the packet of its light.
pub struct LegacyChunkOutput {
    pub chunk: Vec<u8>,
    pub light_update: Vec<u8>,
}

/// The chunk and the light, as bytes.
#[verifier::ext_equal]
pub struct Reframed {
    pub chunk: Seq<u8>,
    pub light_update: Seq<u8>,
}

impl View for LegacyChunkOutput {
    type V = Reframed;

    open spec fn view(&self) -> Reframed {
        Reframed { chunk: self.chunk@, light_update: self.light_update@ }
    }
}

// --- block containers ------------------------------------------------------------------------

/// A section's blocks, with the width at which state numbers stood where there was
/// no palette.
#[verifier::ext_equal]
pub struct Blocks {
    pub values: Seq<u32>,
    pub direct_bits: Option<u8>,
}

pub struct BlockContainer {
    pub values: Vec<u32>,
    pub direct_bits: Option<u8>,
}

impl View for BlockContainer {
    type V = Blocks;

    open spec fn view(&self) -> Blocks {
        Blocks { values: self.values@, direct_bits: self.direct_bits }
    }
}

/// One number for all of `n` places.
pub open spec fn all_same(n: nat, value: u32) -> Seq<u32> {
    Seq::new(n, |i: int| value)
}

/// A number that is not negative.
pub open spec fn take_id(s: Seq<u8>) -> Option<(u32, Seq<u8>)> {
    match wire::take_var_int(s) {
        Some((id, rest)) => if id < 0 {
            None
        } else {
            Some((id as u32, rest))
        },
        None => None,
    }
}

/// A block container. One entry for all blocks has no words behind it; others have
/// exactly the words that they take.
pub open spec fn take_container(s: Seq<u8>) -> Option<(Blocks, Seq<u8>)> {
    match wire::take_u8(s) {
        Some((bits, t)) => if bits == 0 {
            match take_id(t) {
                Some((id, u)) => match palette::take_longs(u) {
                    Some((words, rest)) => if words.len() == 0 {
                        Some((Blocks { values: all_same(BLOCKS_PER_SECTION as nat, id), direct_bits: None }, rest))
                    } else {
                        None
                    },
                    None => None,
                },
                None => None,
            }
        } else if bits > 32 || bits < LEGACY_BLOCK_BITS {
            None
        } else if bits <= MAX_INDIRECT_BLOCK_BITS {
            match palette::take_palette(t) {
                Some((ids, u)) => match take_exact(u, bits) {
                    Some((indices, rest)) => match palette::looked_up(indices, ids) {
                        Some(values) => Some((Blocks { values, direct_bits: None }, rest)),
                        None => None,
                    },
                    None => None,
                },
                None => None,
            }
        } else {
            match take_exact(t, bits) {
                Some((values, rest)) => Some((Blocks { values, direct_bits: Some(bits) }, rest)),
                None => None,
            }
        },
        None => None,
    }
}

/// The entries of a section's blocks, in exactly the words that they take.
pub open spec fn take_exact(s: Seq<u8>, bits: u8) -> Option<(Seq<u32>, Seq<u8>)> {
    match palette::take_longs(s) {
        Some((words, rest)) => if words.len() == palette::long_count(BLOCKS_PER_SECTION as nat, bits) {
            Some((palette::entries(words, bits, BLOCKS_PER_SECTION as nat), rest))
        } else {
            None
        },
        None => None,
    }
}

#[verifier::loop_isolation(false)]
fn repeat_id(n: usize, value: u32) -> (res: Vec<u32>)
    ensures
        res@ == all_same(n as nat, value),
{
    let mut values: Vec<u32> = Vec::new();
    while values.len() < n
        invariant
            values.len() <= n,
            forall|k: int| 0 <= k < values.len() ==> (#[trigger] values@[k]) == value,
        decreases n - values.len(),
    {
        values.push(value);
    }
    assert(values@ =~= all_same(n as nat, value));
    values
}

fn read_id(r: &mut &[u8]) -> (res: Result<u32, ReadingError>)
    ensures
        match take_id(old(r)@) {
            Some((id, rest)) => res == Ok::<u32, ReadingError>(id) && final(r)@ == rest,
            None => res is Err,
        },
{
    let id: i32 = wire::get_var_int(r)?;
    if id < 0 {
        return Err(ReadingError::Malformed);
    }
    Ok(id as u32)
}

fn read_exact(r: &mut &[u8], bits: u8) -> (res: Result<Vec<u32>, ReadingError>)
    requires
        1 <= bits <= 32,
    ensures
        match take_exact(old(r)@, bits) {
            Some((values, rest)) => res is Ok && res->Ok_0@ == values && final(r)@ == rest,
            None => res is Err,
        },
{
    let words: Vec<u64> = palette::read_longs(r)?;
    if words.len() != palette::packed_long_count(BLOCKS_PER_SECTION, bits) {
        return Err(ReadingError::Malformed);
    }
    match palette::unpack(&words, bits, BLOCKS_PER_SECTION) {
        Some(values) => Ok(values),
        None => Err(ReadingError::Malformed),
    }
}

/// A state number for the client; without a table it stays, and one that the client
/// lacks becomes air.
pub open spec fn state_mapped(state: u32, states: Option<Seq<Option<u32>>>) -> u32 {
    match states {
        Some(states) => match mapping::target_of(states, state) {
            Some(target) => target,
            None => 0,
        },
        None => state,
    }
}

pub open spec fn states_mapped(values: Seq<u32>, states: Option<Seq<Option<u32>>>) -> Seq<u32> {
    values.map_values(|state: u32| state_mapped(state, states))
}

/// The bits that a number takes.
pub open spec fn width(n: nat) -> nat
    decreases n,
{
    if n == 0 {
        0
    } else {
        1 + width(n / 2)
    }
}

proof fn lemma_width(n: nat)
    ensures
        n < pow2(width(n)),
    decreases n,
{
    vstd::arithmetic::power2::lemma2_to64();
    if n > 0 {
        lemma_width(n / 2);
        vstd::arithmetic::power2::lemma_pow2_unfold(width(n));
    }
}

proof fn lemma_width_is_bounded(n: nat, bits: nat)
    requires
        n < pow2(bits),
    ensures
        width(n) <= bits,
    decreases n,
{
    vstd::arithmetic::power2::lemma2_to64();
    if n > 0 {
        if bits > 0 {
            vstd::arithmetic::power2::lemma_pow2_unfold(bits);
            lemma_width_is_bounded(n / 2, (bits - 1) as nat);
        }
    }
}

fn bit_width(n: u64) -> (res: u8)
    ensures
        res == width(n as nat),
        res <= 64,
{
    let mut left: u64 = n;
    let mut bits: u8 = 0;
    proof {
        vstd::arithmetic::power2::lemma2_to64();
        vstd::arithmetic::power2::lemma2_to64_rest();
        lemma_width_is_bounded(n as nat, 64);
    }
    while left > 0
        invariant
            width(n as nat) == bits + width(left as nat),
            width(n as nat) <= 64,
        decreases left,
    {
        left = left / 2;
        bits = bits + 1;
    }
    bits
}

/// The numbers of a list, each where it first occurs.
pub open spec fn firsts(values: Seq<u32>) -> Seq<u32>
    decreases values.len(),
{
    if values.len() == 0 {
        seq![]
    } else {
        let before = firsts(values.drop_last());
        if before.contains(values.last()) {
            before
        } else {
            before.push(values.last())
        }
    }
}

/// The places of the numbers among the firsts.
pub open spec fn places(values: Seq<u32>, palette: Seq<u32>) -> Seq<u32> {
    values.map_values(|value: u32| palette.index_of(value) as u32)
}

/// The highest number of a list.
pub open spec fn highest(values: Seq<u32>) -> u32
    decreases values.len(),
{
    if values.len() == 0 {
        0
    } else {
        let before = highest(values.drop_last());
        if before < values.last() {
            values.last()
        } else {
            before
        }
    }
}

pub open spec fn at_least(low: u8, bits: nat) -> u8 {
    if bits < low {
        low
    } else {
        bits as u8
    }
}

/// The width of a container's entries: up to 256 states index a palette, more are
/// state numbers. Their width is that of the client's registry; where that is not
/// known, it is what the numbers had, or what the highest of them takes.
pub open spec fn written_bits(mapped: Seq<u32>, direct_bits: Option<u8>, global_bits: Option<u8>) -> u8 {
    let palette = firsts(mapped);
    if palette.len() <= 256 {
        at_least(LEGACY_BLOCK_BITS, width(if palette.len() == 0 {
            0
        } else {
            (palette.len() - 1) as nat
        }))
    } else {
        match global_bits {
            Some(bits) => bits,
            None => match direct_bits {
                Some(bits) => bits,
                None => at_least(9, width(highest(mapped) as nat)),
            },
        }
    }
}

/// A block container as clients before 1.18 read it; nothing where it is not a whole
/// section's, or where a number does not fit.
pub open spec fn container_written(
    blocks: Blocks,
    states: Option<Seq<Option<u32>>>,
    global_bits: Option<u8>,
) -> Option<Seq<u8>> {
    let mapped = states_mapped(blocks.values, states);
    let palette = firsts(mapped);
    let bits = written_bits(mapped, blocks.direct_bits, global_bits);
    if blocks.values.len() != BLOCKS_PER_SECTION {
        None
    } else if palette.len() <= 256 {
        if palette::all_signed(palette) {
            Some(
                seq![bits] + palette::enc_palette(palette) + palette::enc_longs(
                    palette::packed(places(mapped, palette), bits),
                ),
            )
        } else {
            None
        }
    } else if palette::all_fit(mapped, bits as nat) {
        Some(seq![bits] + palette::enc_longs(palette::packed(mapped, bits)))
    } else {
        None
    }
}

proof fn lemma_firsts(values: Seq<u32>)
    ensures
        firsts(values).no_duplicates(),
        firsts(values).len() <= values.len(),
        forall|i: int| 0 <= i < values.len() ==> firsts(values).contains(#[trigger] values[i]),
    decreases values.len(),
{
    if values.len() > 0 {
        let init = values.drop_last();
        lemma_firsts(init);
        let before = firsts(init);
        let all = firsts(values);
        assert forall|i: int| 0 <= i < values.len() implies all.contains(#[trigger] values[i]) by {
            if i < init.len() {
                assert(init[i] == values[i]);
                let k = choose|k: int| 0 <= k < before.len() && before[k] == values[i];
                assert(all[k] == values[i]);
            } else if !before.contains(values.last()) {
                assert(all[before.len() as int] == values.last());
            }
        }
    }
}

/// The places are in the list, and lead back to the numbers.
proof fn lemma_places(values: Seq<u32>)
    requires
        firsts(values).len() <= 256,
    ensures
        forall|i: int|
            0 <= i < values.len() ==> (#[trigger] places(values, firsts(values))[i]) < firsts(values).len()
                && firsts(values)[places(values, firsts(values))[i] as int] == values[i],
{
    lemma_firsts(values);
    let palette = firsts(values);
    assert forall|i: int| 0 <= i < values.len() implies (#[trigger] places(values, palette)[i]) < palette.len()
        && palette[places(values, palette)[i] as int] == values[i] by {
        assert(palette.contains(values[i]));
        let k = palette.index_of(values[i]);
        assert(0 <= k < palette.len() && palette[k] == values[i]);
    }
}

impl BlockContainer {
    /// Reads a block container.
    pub fn read(r: &mut &[u8]) -> (res: Result<BlockContainer, ReadingError>)
        ensures
            match take_container(old(r)@) {
                Some((blocks, rest)) => res is Ok && res->Ok_0@ == blocks && final(r)@ == rest,
                None => res is Err,
            },
    {
        let bits: u8 = wire::get_u8(r)?;
        if bits == 0 {
            let id: u32 = read_id(r)?;
            let words: Vec<u64> = palette::read_longs(r)?;
            if words.len() != 0 {
                return Err(ReadingError::Malformed);
            }
            return Ok(BlockContainer { values: repeat_id(BLOCKS_PER_SECTION, id), direct_bits: None });
        }
        if bits > 32 || bits < LEGACY_BLOCK_BITS {
            return Err(ReadingError::Malformed);
        }
        if bits <= MAX_INDIRECT_BLOCK_BITS {
            let ids: Vec<u32> = palette::read_palette(r)?;
            let indices: Vec<u32> = read_exact(r, bits)?;
            return match palette::look_up(&indices, &ids) {
                Some(values) => Ok(BlockContainer { values, direct_bits: None }),
                None => Err(ReadingError::Malformed),
            };
        }
        let values: Vec<u32> = read_exact(r, bits)?;
        Ok(BlockContainer { values, direct_bits: Some(bits) })
    }

    #[verifier::loop_isolation(false)]
    fn map_states(&self, states: Option<&IdMapping>) -> (res: Vec<u32>)
        ensures
            res@ == states_mapped(self.values@, chunk_remap::table_view(states)),
    {
        let ghost wanted = states_mapped(self.values@, chunk_remap::table_view(states));
        let mut mapped: Vec<u32> = Vec::new();
        let mut i: usize = 0;
        while i < self.values.len()
            invariant
                i <= self.values.len(),
                mapped@ == wanted.take(i as int),
            decreases self.values.len() - i,
        {
            let state: u32 = self.values[i];
            let shown: u32 = match states {
                Some(states) => match states.map(state) {
                    Some(target) => target,
                    None => 0,
                },
                None => state,
            };
            mapped.push(shown);
            assert(mapped@ =~= wanted.take(i + 1));
            i = i + 1;
        }
        assert(mapped@ =~= wanted);
        mapped
    }

    /// Writes a block container as clients before 1.18 read it; nothing is written
    /// where it is not a whole section's, or where a number does not fit.
    pub fn write(&self, out: &mut Vec<u8>, states: Option<&IdMapping>, global_bits: Option<u8>) -> (res: bool)
        requires
            self.direct_bits matches Some(bits) ==> 1 <= bits <= 32,
            global_bits matches Some(bits) ==> 1 <= bits <= 32,
        ensures
            match container_written(self@, chunk_remap::table_view(states), global_bits) {
                Some(bytes) => res && final(out)@ == old(out)@ + bytes,
                None => !res,
            },
    {
        let ghost before = out@;
        if self.values.len() != BLOCKS_PER_SECTION {
            return false;
        }
        let mapped: Vec<u32> = self.map_states(states);
        let (ids, indices): (Vec<u32>, Vec<u32>) = index_states(&mapped);
        if ids.len() <= 256 {
            let last: u64 = if ids.len() == 0 { 0 } else { ids.len() as u64 - 1 };
            let needed: u8 = bit_width(last);
            let bits: u8 = if needed < LEGACY_BLOCK_BITS { LEGACY_BLOCK_BITS } else { needed };
            proof {
                lemma_places(mapped@);
                lemma_palette_bits(ids@.len(), indices@, bits);
            }
            let mut written: Vec<u8> = Vec::new();
            written.push(bits);
            wire::write_len(&mut written, ids.len());
            if !palette::write_ids(&mut written, &ids) {
                return false;
            }
            palette::write_longs(&mut written, &palette::pack(&indices, bits));
            wire::write_bytes(out, written.as_slice());
            assert(written@ =~= seq![bits] + palette::enc_palette(ids@) + palette::enc_longs(
                palette::packed(indices@, bits),
            ));
            return true;
        }
        let bits: u8 = match global_bits {
            Some(bits) => bits,
            None => match self.direct_bits {
                Some(bits) => bits,
                None => {
                    let needed: u8 = bit_width(find_highest(&mapped) as u64);
                    proof {
                        vstd::arithmetic::power2::lemma2_to64();
                        lemma_width_is_bounded(highest(mapped@) as nat, 32);
                    }
                    if needed < 9 {
                        9
                    } else {
                        needed
                    }
                },
            },
        };
        if !states_fit(&mapped, bits) {
            return false;
        }
        out.push(bits);
        palette::write_longs(out, &palette::pack(&mapped, bits));
        assert(out@ =~= before + (seq![bits] + palette::enc_longs(palette::packed(mapped@, bits))));
        true
    }
}

/// The places in a palette of up to 256 entries fit the width of its entries.
proof fn lemma_palette_bits(count: nat, indices: Seq<u32>, bits: u8)
    requires
        count <= 256,
        forall|i: int| 0 <= i < indices.len() ==> (#[trigger] indices[i]) < count,
        bits == at_least(LEGACY_BLOCK_BITS, width(if count == 0 {
            0
        } else {
            (count - 1) as nat
        })),
    ensures
        4 <= bits <= 8,
        palette::all_fit(indices, bits as nat),
{
    let last: nat = if count == 0 {
        0
    } else {
        (count - 1) as nat
    };
    vstd::arithmetic::power2::lemma2_to64();
    lemma_width_is_bounded(last, 8);
    lemma_width(last);
    if width(last) < 4 {
        vstd::arithmetic::power2::lemma_pow2_strictly_increases(width(last), 4);
    }
    assert forall|i: int| 0 <= i < indices.len() implies (#[trigger] indices[i] as nat) < pow2(bits as nat) by {
        assert(indices[i] <= last);
    }
}

/// The states of a section, each once, and the place of every block's state among
/// them.
#[verifier::loop_isolation(false)]
fn index_states(mapped: &Vec<u32>) -> (res: (Vec<u32>, Vec<u32>))
    requires
        mapped.len() <= 0x1_0000,
    ensures
        res.0@ == firsts(mapped@),
        res.1@ == places(mapped@, firsts(mapped@)),
{
    let mut ids: Vec<u32> = Vec::new();
    let mut found: HashMap<u32, u32> = HashMap::new();
    let mut indices: Vec<u32> = Vec::new();
    let mut i: usize = 0;
    assert(mapped@.take(0) =~= seq![]);
    while i < mapped.len()
        invariant
            i <= mapped.len(),
            ids@ == firsts(mapped@.take(i as int)),
            ids.len() <= i,
            ids@.no_duplicates(),
            forall|x: u32| found@.contains_key(x) <==> ids@.contains(x),
            forall|x: u32| #[trigger] found@.contains_key(x) ==> found@[x] < ids.len() && ids@[found@[x] as int] == x,
            indices.len() == i,
            forall|k: int|
                0 <= k < i ==> (#[trigger] indices@[k]) < ids.len() && ids@[indices@[k] as int] == mapped@[k],
        decreases mapped.len() - i,
    {
        let state: u32 = mapped[i];
        proof {
            let next = mapped@.take(i + 1);
            assert(next.drop_last() =~= mapped@.take(i as int));
            assert(next.last() == state);
        }
        let ghost old_ids = ids@;
        match found.get(&state) {
            Some(index) => {
                indices.push(*index);
            },
            None => {
                let index: u32 = ids.len() as u32;
                ids.push(state);
                found.insert(state, index);
                indices.push(index);
                proof {
                    assert forall|x: u32| found@.contains_key(x) <==> ids@.contains(x) by {
                        if x == state {
                            assert(ids@[index as int] == state);
                        } else if old_ids.contains(x) {
                            let k = choose|k: int| 0 <= k < old_ids.len() && old_ids[k] == x;
                            assert(ids@[k] == x);
                        } else if ids@.contains(x) {
                            let k = choose|k: int| 0 <= k < ids@.len() && ids@[k] == x;
                            assert(old_ids[k] == x);
                        }
                    }
                }
            },
        }
        i = i + 1;
    }
    proof {
        assert(mapped@.take(i as int) =~= mapped@);
        lemma_firsts(mapped@);
        assert forall|k: int| 0 <= k < mapped.len() implies indices@[k] == places(mapped@, ids@)[k] by {
            let wanted = ids@.index_of(mapped@[k]);
            assert(ids@[indices@[k] as int] == mapped@[k]);
            assert(ids@.contains(mapped@[k]));
            assert(ids@[wanted] == mapped@[k]);
        }
        assert(indices@ =~= places(mapped@, ids@));
    }
    (ids, indices)
}

#[verifier::loop_isolation(false)]
fn find_highest(values: &Vec<u32>) -> (res: u32)
    ensures
        res == highest(values@),
{
    let mut best: u32 = 0;
    let mut i: usize = 0;
    assert(values@.take(0) =~= seq![]);
    while i < values.len()
        invariant
            i <= values.len(),
            best == highest(values@.take(i as int)),
        decreases values.len() - i,
    {
        assert(values@.take(i + 1).drop_last() =~= values@.take(i as int));
        if best < values[i] {
            best = values[i];
        }
        i = i + 1;
    }
    assert(values@.take(i as int) =~= values@);
    best
}

#[verifier::loop_isolation(false)]
fn states_fit(values: &Vec<u32>, bits: u8) -> (res: bool)
    requires
        1 <= bits <= 32,
    ensures
        res == palette::all_fit(values@, bits as nat),
{
    proof {
        vstd::bits::lemma_u64_pow2_no_overflow(bits as nat);
        vstd::bits::lemma_u64_shl_is_mul(1, bits as u64);
    }
    let limit: u64 = 1u64 << bits as u64;
    let mut i: usize = 0;
    while i < values.len()
        invariant
            i <= values.len(),
            forall|k: int| 0 <= k < i ==> (#[trigger] values@[k] as nat) < pow2(bits as nat),
        decreases values.len() - i,
    {
        if values[i] as u64 >= limit {
            return false;
        }
        i = i + 1;
    }
    true
}

// --- the registry's width -------------------------------------------------------------------

/// The highest number that a table gives, from the i-th slot on.
pub open spec fn highest_target(slots: Seq<Option<u32>>, best: Option<u32>, i: int) -> Option<u32>
    decreases slots.len() - i,
{
    if i < 0 || i >= slots.len() {
        best
    } else {
        match (slots[i], best) {
            (Some(target), Some(known)) => highest_target(slots, if known < target {
                Some(target)
            } else {
                best
            }, i + 1),
            (Some(target), None) => highest_target(slots, Some(target), i + 1),
            (None, _) => highest_target(slots, best, i + 1),
        }
    }
}

/// The width of state numbers in the client's registry, which reaches to the highest
/// number of the table. It is a property of the registry, not of a section; without
/// a table it is not known.
pub open spec fn global_bits(states: Option<Seq<Option<u32>>>) -> Option<u8> {
    match states {
        Some(slots) => match highest_target(slots, None, 0) {
            Some(target) => Some(at_least(9, width(target as nat))),
            None => Some(9),
        },
        None => None,
    }
}

#[verifier::loop_isolation(false)]
pub fn global_palette_bits(states: Option<&IdMapping>) -> (res: Option<u8>)
    ensures
        res == global_bits(chunk_remap::table_view(states)),
        res matches Some(bits) ==> 9 <= bits <= 32,
{
    let states: &IdMapping = match states {
        Some(states) => states,
        None => {
            return None;
        },
    };
    let mut best: Option<u32> = None;
    let mut i: usize = 0;
    while i < states.slots.len()
        invariant
            i <= states.slots.len(),
            highest_target(states@, None, 0) == highest_target(states@, best, i as int),
        decreases states.slots.len() - i,
    {
        if let Some(target) = states.slots[i] {
            best = match best {
                Some(known) => if known < target {
                    Some(target)
                } else {
                    Some(known)
                },
                None => Some(target),
            };
        }
        i = i + 1;
    }
    match best {
        Some(target) => {
            proof {
                vstd::arithmetic::power2::lemma2_to64();
                lemma_width_is_bounded(target as nat, 32);
            }
            let needed: u8 = bit_width(target as u64);
            if needed < 9 {
                Some(9)
            } else {
                Some(needed)
            }
        },
        None => Some(9),
    }
}

// --- biomes ---------------------------------------------------------------------------------

/// A section's biomes. Entries of more than three bits are the biomes' numbers, cut
/// to thirty-two bits; none is as wide as a word.
pub open spec fn take_biomes(s: Seq<u8>) -> Option<(Seq<u32>, Seq<u8>)> {
    match wire::take_u8(s) {
        Some((bits, t)) => if bits == 0 {
            match take_id(t) {
                Some((id, u)) => match palette::take_longs(u) {
                    Some((words, rest)) => Some((all_same(BIOMES_PER_SECTION as nat, id), rest)),
                    None => None,
                },
                None => None,
            }
        } else if bits >= 64 {
            None
        } else if bits <= MAX_INDIRECT_BIOME_BITS {
            match palette::take_palette(t) {
                Some((ids, u)) => match palette::take_longs(u) {
                    Some((words, rest)) => match palette::unpacked(words, bits, BIOMES_PER_SECTION as nat) {
                        Some(indices) => match palette::looked_up(indices, ids) {
                            Some(biomes) => Some((biomes, rest)),
                            None => None,
                        },
                        None => None,
                    },
                    None => None,
                },
                None => None,
            }
        } else {
            match palette::take_longs(t) {
                Some((words, rest)) => match palette::unpacked(words, bits, BIOMES_PER_SECTION as nat) {
                    Some(biomes) => Some((biomes, rest)),
                    None => None,
                },
                None => None,
            }
        },
        None => None,
    }
}

fn read_biomes(r: &mut &[u8]) -> (res: Result<Vec<u32>, ReadingError>)
    ensures
        match take_biomes(old(r)@) {
            Some((biomes, rest)) => res is Ok && res->Ok_0@ == biomes && final(r)@ == rest,
            None => res is Err,
        },
{
    let bits: u8 = wire::get_u8(r)?;
    if bits == 0 {
        let id: u32 = read_id(r)?;
        let words: Vec<u64> = palette::read_longs(r)?;
        return Ok(repeat_id(BIOMES_PER_SECTION, id));
    }
    if bits >= 64 {
        return Err(ReadingError::Malformed);
    }
    let mut ids: Vec<u32> = Vec::new();
    if bits <= MAX_INDIRECT_BIOME_BITS {
        ids = palette::read_palette(r)?;
    }
    let words: Vec<u64> = palette::read_longs(r)?;
    let entries: Vec<u32> = match palette::unpack(&words, bits, BIOMES_PER_SECTION) {
        Some(entries) => entries,
        None => {
            return Err(ReadingError::Malformed);
        },
    };
    if bits > MAX_INDIRECT_BIOME_BITS {
        return Ok(entries);
    }
    match palette::look_up(&entries, &ids) {
        Some(biomes) => Ok(biomes),
        None => Err(ReadingError::Malformed),
    }
}

// --- the column ---------------------------------------------------------------------------------

/// A section: its count of blocks, its blocks and its biomes.
#[verifier::ext_equal]
pub struct Section {
    pub count: u16,
    pub blocks: Blocks,
    pub biomes: Seq<u32>,
}

pub open spec fn take_section(s: Seq<u8>) -> Option<(Section, Seq<u8>)> {
    match wire::take_u16(s) {
        Some((count, t)) => match take_container(t) {
            Some((blocks, u)) => match take_biomes(u) {
                Some((biomes, rest)) => Some((Section { count, blocks, biomes }, rest)),
                None => None,
            },
            None => None,
        },
        None => None,
    }
}

/// What the client gets of a column: which sections hold blocks, those sections, and
/// the biomes.
#[verifier::ext_equal]
pub struct Column {
    pub mask: u64,
    pub kept: Seq<u8>,
    pub biomes: Seq<u32>,
}

/// The first of the server's sections that the client's world has.
pub open spec fn first_section(world_bottom: i32) -> nat {
    if i32::MIN < world_bottom < 0 {
        ((-world_bottom) / 16) as nat
    } else {
        0
    }
}

/// A column with one section more: sections outside the client's world are left out,
/// and those without blocks have only biomes.
pub open spec fn with_section(
    column: Column,
    section: Section,
    index: nat,
    first: nat,
    states: Option<Seq<Option<u32>>>,
) -> Option<Column> {
    if index < first || index - first >= SECTIONS {
        Some(column)
    } else if section.count == 0 {
        Some(Column { biomes: column.biomes + section.biomes, ..column })
    } else {
        match container_written(section.blocks, states, global_bits(states)) {
            Some(bytes) => Some(
                Column {
                    mask: column.mask | (1u64 << ((index - first) as u64)),
                    kept: column.kept + wire::enc_u16(section.count) + bytes,
                    biomes: column.biomes + section.biomes,
                },
            ),
            None => None,
        }
    }
}

/// The column of all sections, from the given one on.
pub open spec fn column_of(
    column: Column,
    s: Seq<u8>,
    index: nat,
    first: nat,
    states: Option<Seq<Option<u32>>>,
) -> Option<Column>
    decreases s.len(),
{
    if s.len() == 0 {
        Some(column)
    } else {
        match take_section(s) {
            Some((section, rest)) => match with_section(column, section, index, first, states) {
                Some(next) => if rest.len() < s.len() {
                    column_of(next, rest, index + 1, first, states)
                } else {
                    None
                },
                None => None,
            },
            None => None,
        }
    }
}

pub open spec fn empty_column() -> Column {
    Column { mask: 0, kept: seq![], biomes: seq![] }
}

/// Biomes for the whole column: a world that is shorter than the client's goes on
/// with the biome of its top.
pub open spec fn padded(biomes: Seq<u32>) -> Seq<u32> {
    let last = if biomes.len() == 0 {
        0
    } else {
        biomes.last()
    };
    if biomes.len() >= BIOMES_PER_COLUMN {
        biomes.take(BIOMES_PER_COLUMN as int)
    } else {
        biomes + all_same((BIOMES_PER_COLUMN - biomes.len()) as nat, last)
    }
}

struct ColumnParts {
    mask: u64,
    kept: Vec<u8>,
    biomes: Vec<u32>,
}

impl View for ColumnParts {
    type V = Column;

    closed spec fn view(&self) -> Column {
        Column { mask: self.mask, kept: self.kept@, biomes: self.biomes@ }
    }
}

#[verifier::loop_isolation(false)]
fn append_ids(out: &mut Vec<u32>, ids: &Vec<u32>)
    ensures
        final(out)@ == old(out)@ + ids@,
{
    let ghost before = out@;
    let mut i: usize = 0;
    while i < ids.len()
        invariant
            i <= ids.len(),
            out@ == before + ids@.take(i as int),
        decreases ids.len() - i,
    {
        out.push(ids[i]);
        assert(out@ =~= before + ids@.take(i + 1));
        i = i + 1;
    }
    assert(out@ =~= before + ids@);
}

proof fn lemma_container_is_whole(s: Seq<u8>)
    ensures
        take_container(s) matches Some((blocks, rest)) ==> blocks.values.len() == BLOCKS_PER_SECTION && (
        blocks.direct_bits matches Some(bits) ==> 1 <= bits <= 32),
{
}

/// Takes one section into a column; `false` where it cannot be written.
fn add_section(
    column: &mut ColumnParts,
    count: u16,
    blocks: &BlockContainer,
    biomes: &Vec<u32>,
    index: usize,
    first: usize,
    states: Option<&IdMapping>,
    bits: Option<u8>,
) -> (res: bool)
    requires
        blocks.values.len() == BLOCKS_PER_SECTION,
        blocks.direct_bits matches Some(bits) ==> 1 <= bits <= 32,
        bits == global_bits(chunk_remap::table_view(states)),
        bits matches Some(bits) ==> 9 <= bits <= 32,
    ensures
        match with_section(
            old(column)@,
            (Section { count, blocks: blocks@, biomes: biomes@ }),
            index as nat,
            first as nat,
            chunk_remap::table_view(states),
        ) {
            Some(next) => res && final(column)@ == next,
            None => !res,
        },
{
    if index < first || index - first >= SECTIONS {
        return true;
    }
    if count != 0 {
        column.mask = column.mask | (1u64 << ((index - first) as u64));
        wire::write_u16(&mut column.kept, count);
        let ghost kept = column.kept@;
        if !blocks.write(&mut column.kept, states, bits) {
            return false;
        }
    }
    append_ids(&mut column.biomes, biomes);
    true
}

#[verifier::loop_isolation(false)]
fn read_column(sections: &[u8], first: usize, states: Option<&IdMapping>) -> (res: Option<ColumnParts>)
    ensures
        match res {
            Some(column) => column_of(empty_column(), sections@, 0, first as nat, chunk_remap::table_view(states))
                == Some(column@),
            None => column_of(
                empty_column(),
                sections@,
                0,
                first as nat,
                chunk_remap::table_view(states),
            ) is None,
        },
{
    let ghost table = chunk_remap::table_view(states);
    let bits: Option<u8> = global_palette_bits(states);
    let mut r: &[u8] = sections;
    let mut column: ColumnParts = ColumnParts { mask: 0, kept: Vec::new(), biomes: Vec::new() };
    assert(column@ =~= empty_column());
    let mut index: usize = 0;
    while r.len() > 0
        invariant
            index + r@.len() <= sections@.len(),
            column_of(empty_column(), sections@, 0, first as nat, table) == column_of(
                column@,
                r@,
                index as nat,
                first as nat,
                table,
            ),
        decreases r@.len(),
    {
        let length: usize = r.len();
        assert(index < sections.len());
        let ghost start = r@;
        let count: u16 = match wire::get_u16(&mut r) {
            Ok(count) => count,
            Err(_) => {
                return None;
            },
        };
        proof {
            lemma_container_is_whole(r@);
        }
        let blocks: BlockContainer = match BlockContainer::read(&mut r) {
            Ok(blocks) => blocks,
            Err(_) => {
                return None;
            },
        };
        let biomes: Vec<u32> = match read_biomes(&mut r) {
            Ok(biomes) => biomes,
            Err(_) => {
                return None;
            },
        };
        assert(take_section(start) == Some((Section { count, blocks: blocks@, biomes: biomes@ }, r@)));
        if !add_section(&mut column, count, &blocks, &biomes, index, first, states, bits) {
            return None;
        }
        if r.len() >= length {
            return None;
        }
        index = index + 1;
    }
    Some(column)
}

#[verifier::loop_isolation(false)]
fn pad_biomes(biomes: &Vec<u32>) -> (res: Vec<u32>)
    ensures
        res@ == padded(biomes@),
        res.len() == BIOMES_PER_COLUMN,
{
    let last: u32 = if biomes.len() == 0 { 0 } else { biomes[biomes.len() - 1] };
    let mut out: Vec<u32> = Vec::new();
    while out.len() < BIOMES_PER_COLUMN
        invariant
            out.len() <= BIOMES_PER_COLUMN,
            out@ == padded(biomes@).take(out.len() as int),
            padded(biomes@).len() == BIOMES_PER_COLUMN,
        decreases BIOMES_PER_COLUMN - out.len(),
    {
        let i: usize = out.len();
        let biome: u32 = if i < biomes.len() { biomes[i] } else { last };
        out.push(biome);
        assert(out@ =~= padded(biomes@).take(i + 1));
    }
    assert(out@ =~= padded(biomes@));
    out
}

// --- light ----------------------------------------------------------------------------------------

/// A bit mask over the sections, in words.
pub open spec fn take_mask(s: Seq<u8>) -> Option<(Seq<u64>, Seq<u8>)> {
    match wire::take_var_int(s) {
        Some((n, rest)) => if 0 <= n <= MAX_LIGHT_MASK_LONGS {
            palette::take_words(seq![], n as nat, rest)
        } else {
            None
        },
        None => None,
    }
}

/// Whether a mask has a section.
pub open spec fn lit(mask: Seq<u64>, bit: int) -> bool {
    0 <= bit && bit / 64 < mask.len() && palette::entry(mask[bit / 64], 1, (bit % 64) as nat) == 1
}

/// The sections of a mask below the given one.
pub open spec fn lit_before(mask: Seq<u64>, bit: int) -> nat
    decreases bit,
{
    if bit <= 0 {
        0
    } else if lit(mask, bit - 1) {
        lit_before(mask, bit - 1) + 1
    } else {
        lit_before(mask, bit - 1)
    }
}

/// The sections of a mask.
pub open spec fn lit_count(mask: Seq<u64>) -> nat {
    lit_before(mask, 64 * mask.len() as int)
}

/// `n` arrays of light, each with its length in front, behind those that were read.
pub open spec fn take_arrays(done: Seq<Seq<u8>>, n: nat, s: Seq<u8>) -> Option<(Seq<Seq<u8>>, Seq<u8>)>
    decreases n,
{
    if n == 0 {
        Some((done, s))
    } else {
        match wire::take_var_int(s) {
            Some((length, t)) => match wire::take_bytes(t, length as int) {
                Some((array, rest)) => take_arrays(done.push(array), (n - 1) as nat, rest),
                None => None,
            },
            None => None,
        }
    }
}

/// The arrays of a mask's sections: there are as many as sections.
pub open spec fn take_light(s: Seq<u8>, mask: Seq<u64>) -> Option<(Seq<Seq<u8>>, Seq<u8>)> {
    match wire::take_var_int(s) {
        Some((n, rest)) => if 0 <= n <= MAX_LIGHT_ARRAYS && n == lit_count(mask) {
            take_arrays(seq![], n as nat, rest)
        } else {
            None
        },
        None => None,
    }
}

/// The first bits of the eighteen that a client before 1.17 has sections for.
pub open spec fn cut_mask(mask: Seq<u64>, start: int, n: nat) -> nat
    decreases n,
{
    if n == 0 {
        0
    } else if lit(mask, start + n - 1) {
        cut_mask(mask, start, (n - 1) as nat) + pow2((n - 1) as nat)
    } else {
        cut_mask(mask, start, (n - 1) as nat)
    }
}

/// The arrays of the eighteen sections from `start` on.
pub open spec fn cut_arrays(mask: Seq<u64>, arrays: Seq<Seq<u8>>, start: int) -> Seq<Seq<u8>> {
    arrays.subrange(lit_before(mask, start) as int, lit_before(mask, start + 18) as int)
}

pub open spec fn enc_arrays(arrays: Seq<Seq<u8>>) -> Seq<u8>
    decreases arrays.len(),
{
    if arrays.len() == 0 {
        seq![]
    } else {
        enc_arrays(arrays.drop_last()) + wire::enc_len(arrays.last().len()) + arrays.last()
    }
}

pub open spec fn array_views(arrays: Seq<Vec<u8>>) -> Seq<Seq<u8>> {
    arrays.map_values(|array: Vec<u8>| array@)
}

/// The light of a chunk: whether edges are trusted, the sections with sky light and
/// block light, those that are known to be dark, and the arrays.
#[verifier::ext_equal]
pub struct Light {
    pub trust_edges: bool,
    pub sky: Seq<u64>,
    pub block: Seq<u64>,
    pub empty_sky: Seq<u64>,
    pub empty_block: Seq<u64>,
    pub sky_arrays: Seq<Seq<u8>>,
    pub block_arrays: Seq<Seq<u8>>,
}

pub open spec fn take_light_data(s: Seq<u8>) -> Option<(Light, Seq<u8>)> {
    match wire::take_bool(s) {
        Some((trust_edges, s1)) => match take_mask(s1) {
            Some((sky, s2)) => match take_mask(s2) {
                Some((block, s3)) => match take_mask(s3) {
                    Some((empty_sky, s4)) => match take_mask(s4) {
                        Some((empty_block, s5)) => match take_light(s5, sky) {
                            Some((sky_arrays, s6)) => match take_light(s6, block) {
                                Some((block_arrays, rest)) => Some(
                                    (
                                        Light {
                                            trust_edges,
                                            sky,
                                            block,
                                            empty_sky,
                                            empty_block,
                                            sky_arrays,
                                            block_arrays,
                                        },
                                        rest,
                                    ),
                                ),
                                None => None,
                            },
                            None => None,
                        },
                        None => None,
                    },
                    None => None,
                },
                None => None,
            },
            None => None,
        },
        None => None,
    }
}

/// The first of the server's light sections that the client's world has.
pub open spec fn first_light(world_bottom: i32) -> int {
    let sections = -(world_bottom as int / 16);
    if sections < 0 {
        0
    } else {
        sections
    }
}

/// The packet of a chunk's light, in the client's own layout: before 1.17 it is cut
/// to eighteen sections, and each mask is one number.
pub open spec fn enc_light(light: Light, x: i32, z: i32, world_bottom: i32, version: Version) -> Seq<u8> {
    let head = wire::enc_var_int(x) + wire::enc_var_int(z) + (if version::V_1_16 <= version <= version::V_1_19_4 {
        wire::enc_bool(light.trust_edges)
    } else {
        seq![]
    });
    if version >= version::V_1_17 {
        head + palette::enc_longs(light.sky) + palette::enc_longs(light.block) + palette::enc_longs(light.empty_sky)
            + palette::enc_longs(light.empty_block) + wire::enc_len(light.sky_arrays.len()) + enc_arrays(
            light.sky_arrays,
        ) + wire::enc_len(light.block_arrays.len()) + enc_arrays(light.block_arrays)
    } else {
        let start = first_light(world_bottom);
        head + wire::enc_var_int(cut_mask(light.sky, start, 18) as i32) + wire::enc_var_int(
            cut_mask(light.block, start, 18) as i32,
        ) + wire::enc_var_int(cut_mask(light.empty_sky, start, 18) as i32) + wire::enc_var_int(
            cut_mask(light.empty_block, start, 18) as i32,
        ) + enc_arrays(cut_arrays(light.sky, light.sky_arrays, start)) + enc_arrays(
            cut_arrays(light.block, light.block_arrays, start),
        )
    }
}

struct LightData {
    trust_edges: bool,
    sky: Vec<u64>,
    block: Vec<u64>,
    empty_sky: Vec<u64>,
    empty_block: Vec<u64>,
    sky_arrays: Vec<Vec<u8>>,
    block_arrays: Vec<Vec<u8>>,
}

impl View for LightData {
    type V = Light;

    closed spec fn view(&self) -> Light {
        Light {
            trust_edges: self.trust_edges,
            sky: self.sky@,
            block: self.block@,
            empty_sky: self.empty_sky@,
            empty_block: self.empty_block@,
            sky_arrays: array_views(self.sky_arrays@),
            block_arrays: array_views(self.block_arrays@),
        }
    }
}

fn read_light_mask(r: &mut &[u8]) -> (res: Result<Vec<u64>, ReadingError>)
    ensures
        palette::gave_words(res, final(r)@, take_mask(old(r)@)),
        res is Ok ==> res->Ok_0.len() <= MAX_LIGHT_MASK_LONGS,
{
    let n: i32 = wire::get_var_int(r)?;
    if n < 0 || n > MAX_LIGHT_MASK_LONGS {
        return Err(ReadingError::Malformed);
    }
    proof {
        chunk_remap::lemma_words_len(seq![], n as nat, r@);
    }
    palette::get_words(n as usize, r)
}

pub fn light_mask_contains(mask: &Vec<u64>, bit: usize) -> (res: bool)
    ensures
        res == lit(mask@, bit as int),
{
    if bit / 64 >= mask.len() {
        return false;
    }
    palette::get_entry(mask[bit / 64], 1, bit % 64) == 1
}

#[verifier::loop_isolation(false)]
fn count_lit(mask: &Vec<u64>, end: usize) -> (res: usize)
    ensures
        res == lit_before(mask@, end as int),
        res <= end,
{
    let mut count: usize = 0;
    let mut bit: usize = 0;
    while bit < end
        invariant
            bit <= end,
            count <= bit,
            count == lit_before(mask@, bit as int),
        decreases end - bit,
    {
        if light_mask_contains(mask, bit) {
            count = count + 1;
        }
        bit = bit + 1;
    }
    count
}

#[verifier::loop_isolation(false)]
fn read_light_arrays(r: &mut &[u8], mask: &Vec<u64>) -> (res: Result<Vec<Vec<u8>>, ReadingError>)
    requires
        mask.len() <= MAX_LIGHT_MASK_LONGS,
    ensures
        match take_light(old(r)@, mask@) {
            Some((arrays, rest)) => res is Ok && array_views(res->Ok_0@) == arrays && final(r)@ == rest,
            None => res is Err,
        },
        res is Ok ==> res->Ok_0.len() == lit_count(mask@),
{
    let ghost wanted = take_light(r@, mask@);
    let n: i32 = wire::get_var_int(r)?;
    if n < 0 || n > MAX_LIGHT_ARRAYS || n as usize != count_lit(mask, 64 * mask.len()) {
        return Err(ReadingError::Malformed);
    }
    let mut arrays: Vec<Vec<u8>> = Vec::new();
    let mut left: i32 = n;
    assert(array_views(arrays@) =~= seq![]);
    while left > 0
        invariant
            0 <= left <= n,
            arrays.len() == n - left,
            wanted == take_arrays(array_views(arrays@), left as nat, r@),
        decreases left,
    {
        let length: i32 = wire::get_var_int(r)?;
        if length < 0 {
            return Err(ReadingError::Malformed);
        }
        let array: &[u8] = wire::get_bytes(r, length as usize)?;
        let ghost before = arrays@;
        arrays.push(slice_to_vec(array));
        assert(array_views(arrays@) =~= array_views(before).push(array@));
        left = left - 1;
    }
    Ok(arrays)
}

#[verifier::loop_isolation(false)]
fn cut_light_mask(mask: &Vec<u64>, start: usize) -> (res: i32)
    requires
        start + 18 <= usize::MAX,
    ensures
        res == cut_mask(mask@, start as int, 18),
{
    let mut cut: i32 = 0;
    let mut unit: i32 = 1;
    let mut n: usize = 0;
    proof {
        vstd::arithmetic::power2::lemma2_to64();
    }
    while n < 18
        invariant
            n <= 18,
            unit == pow2(n as nat),
            0 <= cut < unit,
            cut == cut_mask(mask@, start as int, n as nat),
        decreases 18 - n,
    {
        proof {
            vstd::arithmetic::power2::lemma_pow2_unfold((n + 1) as nat);
            if n < 17 {
                vstd::arithmetic::power2::lemma_pow2_strictly_increases(n as nat, 17);
            }
        }
        if light_mask_contains(mask, start + n) {
            cut = cut + unit;
        }
        unit = unit * 2;
        n = n + 1;
    }
    cut
}

#[verifier::loop_isolation(false)]
fn write_light_arrays(out: &mut Vec<u8>, arrays: &Vec<Vec<u8>>, first: usize, end: usize)
    requires
        first <= end <= arrays.len(),
    ensures
        final(out)@ == old(out)@ + enc_arrays(array_views(arrays@).subrange(first as int, end as int)),
{
    let ghost before = out@;
    let ghost all = array_views(arrays@);
    let mut i: usize = first;
    proof {
        assert(all.subrange(first as int, first as int) =~= seq![]);
        assert(out@ =~= before + enc_arrays(all.subrange(first as int, first as int)));
    }
    while i < end
        invariant
            first <= i <= end,
            out@ == before + enc_arrays(all.subrange(first as int, i as int)),
        decreases end - i,
    {
        wire::write_str(out, arrays[i].as_slice());
        proof {
            let next = all.subrange(first as int, i + 1);
            assert(next.drop_last() =~= all.subrange(first as int, i as int));
            assert(next.last() == arrays@[i as int]@);
            assert(out@ =~= before + enc_arrays(next));
        }
        i = i + 1;
    }
}

proof fn lemma_lit_grows(mask: Seq<u64>, low: int, high: int)
    requires
        low <= high,
    ensures
        lit_before(mask, low) <= lit_before(mask, high),
    decreases high - low,
{
    if low < high {
        lemma_lit_grows(mask, low, high - 1);
    }
}

proof fn lemma_nothing_is_lit_past_the_mask(mask: Seq<u64>, high: int)
    requires
        64 * mask.len() <= high,
    ensures
        lit_before(mask, high) == lit_count(mask),
    decreases high,
{
    if 64 * mask.len() < high {
        lemma_nothing_is_lit_past_the_mask(mask, high - 1);
    }
}

/// The sections below any bound are among all.
proof fn lemma_lit_is_bounded(mask: Seq<u64>, bit: int)
    ensures
        lit_before(mask, bit) <= lit_count(mask),
{
    if bit <= 64 * mask.len() {
        lemma_lit_grows(mask, bit, 64 * mask.len() as int);
    } else {
        lemma_nothing_is_lit_past_the_mask(mask, bit);
    }
}

/// The light of the eighteen sections from `start` on: their mask and their arrays.
/// Nothing where the arrays do not number the sections of the mask.
#[verifier::loop_isolation(false)]
pub fn cut_light_arrays(mask: &Vec<u64>, arrays: &Vec<Vec<u8>>, start: usize) -> (res: Option<(i32, Vec<Vec<u8>>)>)
    ensures
        res is Some <==> start + 18 <= usize::MAX && 64 * mask.len() <= usize::MAX && arrays.len() == lit_count(
            mask@,
        ),
        res matches Some((cut, kept)) ==> cut == cut_mask(mask@, start as int, 18) && array_views(kept@)
            == cut_arrays(mask@, array_views(arrays@), start as int),
{
    if start > usize::MAX - 18 || mask.len() > usize::MAX / 64 {
        return None;
    }
    if arrays.len() != count_lit(mask, 64 * mask.len()) {
        return None;
    }
    let first: usize = count_lit(mask, start);
    let end: usize = count_lit(mask, start + 18);
    let ghost all = array_views(arrays@);
    proof {
        lemma_lit_grows(mask@, start as int, start + 18);
        lemma_lit_is_bounded(mask@, start + 18);
    }
    let mut kept: Vec<Vec<u8>> = Vec::new();
    let mut i: usize = first;
    assert(array_views(kept@) =~= all.subrange(first as int, first as int));
    while i < end
        invariant
            first <= i <= end,
            array_views(kept@) == all.subrange(first as int, i as int),
        decreases end - i,
    {
        let ghost before = kept@;
        kept.push(slice_to_vec(arrays[i].as_slice()));
        assert(array_views(kept@) =~= array_views(before).push(all[i as int]));
        assert(all.subrange(first as int, i + 1) =~= all.subrange(first as int, i as int).push(all[i as int]));
        i = i + 1;
    }
    Some((cut_light_mask(mask, start), kept))
}

fn read_light_data(r: &mut &[u8]) -> (res: Result<LightData, ReadingError>)
    ensures
        match take_light_data(old(r)@) {
            Some((light, rest)) => res is Ok && res->Ok_0@ == light && final(r)@ == rest,
            None => res is Err,
        },
        res matches Ok(light) ==> light.sky_arrays.len() == lit_count(light.sky@) && light.block_arrays.len()
            == lit_count(light.block@) && light.sky.len() <= MAX_LIGHT_MASK_LONGS && light.block.len()
            <= MAX_LIGHT_MASK_LONGS,
{
    let trust_edges: bool = wire::get_bool(r)?;
    let sky: Vec<u64> = read_light_mask(r)?;
    let block: Vec<u64> = read_light_mask(r)?;
    let empty_sky: Vec<u64> = read_light_mask(r)?;
    let empty_block: Vec<u64> = read_light_mask(r)?;
    let sky_arrays: Vec<Vec<u8>> = read_light_arrays(r, &sky)?;
    let block_arrays: Vec<Vec<u8>> = read_light_arrays(r, &block)?;
    Ok(LightData { trust_edges, sky, block, empty_sky, empty_block, sky_arrays, block_arrays })
}

fn write_light(light: &LightData, x: i32, z: i32, world_bottom: i32, version: Version) -> (res: Vec<u8>)
    requires
        light.sky_arrays.len() == lit_count(light.sky@),
        light.block_arrays.len() == lit_count(light.block@),
        light.sky.len() <= MAX_LIGHT_MASK_LONGS,
        light.block.len() <= MAX_LIGHT_MASK_LONGS,
    ensures
        res@ == enc_light(light@, x, z, world_bottom, version),
{
    let mut out: Vec<u8> = Vec::new();
    wire::write_var_int(&mut out, x);
    wire::write_var_int(&mut out, z);
    if version::V_1_16 <= version && version <= version::V_1_19_4 {
        wire::write_bool(&mut out, light.trust_edges);
    }
    let ghost head = out@;
    proof {
        assert(head =~= wire::enc_var_int(x) + wire::enc_var_int(z) + (if version::V_1_16 <= version
            <= version::V_1_19_4 {
            wire::enc_bool(light.trust_edges)
        } else {
            seq![]
        }));
    }
    if version >= version::V_1_17 {
        palette::write_longs(&mut out, &light.sky);
        palette::write_longs(&mut out, &light.block);
        palette::write_longs(&mut out, &light.empty_sky);
        palette::write_longs(&mut out, &light.empty_block);
        wire::write_len(&mut out, light.sky_arrays.len());
        write_light_arrays(&mut out, &light.sky_arrays, 0, light.sky_arrays.len());
        wire::write_len(&mut out, light.block_arrays.len());
        write_light_arrays(&mut out, &light.block_arrays, 0, light.block_arrays.len());
        proof {
            let sky = array_views(light.sky_arrays@);
            let block = array_views(light.block_arrays@);
            assert(sky.subrange(0, sky.len() as int) =~= sky);
            assert(block.subrange(0, block.len() as int) =~= block);
            assert(out@ =~= enc_light(light@, x, z, world_bottom, version));
        }
        return out;
    }
    let bottom: i64 = world_bottom as i64;
    let sections: i64 = if bottom >= 0 { 0 } else { (15 - bottom) / 16 };
    assert(sections == first_light(world_bottom));
    let start: usize = sections as usize;
    let (sky_mask, sky_arrays): (i32, Vec<Vec<u8>>) = match cut_light_arrays(&light.sky, &light.sky_arrays, start) {
        Some(cut) => cut,
        None => (0, Vec::new()),
    };
    let (block_mask, block_arrays): (i32, Vec<Vec<u8>>) = match cut_light_arrays(
        &light.block,
        &light.block_arrays,
        start,
    ) {
        Some(cut) => cut,
        None => (0, Vec::new()),
    };
    wire::write_var_int(&mut out, sky_mask);
    wire::write_var_int(&mut out, block_mask);
    wire::write_var_int(&mut out, cut_light_mask(&light.empty_sky, start));
    wire::write_var_int(&mut out, cut_light_mask(&light.empty_block, start));
    write_light_arrays(&mut out, &sky_arrays, 0, sky_arrays.len());
    write_light_arrays(&mut out, &block_arrays, 0, block_arrays.len());
    proof {
        let sky = array_views(sky_arrays@);
        let block = array_views(block_arrays@);
        assert(sky.subrange(0, sky.len() as int) =~= sky);
        assert(block.subrange(0, block.len() as int) =~= block);
    }
    assert(out@ =~= enc_light(light@, x, z, world_bottom, version));
    out
}

// --- block entities --------------------------------------------------------------------------------

/// A number in the range of a field, however large it was.
pub open spec fn wrapped(value: int) -> i32 {
    wire::i32_of_bits((value % 0x1_0000_0000) as u32)
}

/// The block that a column's place and a place in it make.
fn block_coordinate(chunk: i32, local: u8) -> (res: i32)
    requires
        local < 16,
    ensures
        res == wrapped(chunk * 16 + local),
{
    let bits: u64 = (wire::i32_to_bits(chunk) as u64 * 16 + local as u64) % 0x1_0000_0000;
    proof {
        let unsigned = wire::bits_of_i32(chunk) as int;
        assert(unsigned == chunk || unsigned == chunk + 0x1_0000_0000);
        assert((unsigned * 16 + local) % 0x1_0000_0000 == (chunk * 16 + local) % 0x1_0000_0000);
    }
    wire::i32_from_bits(bits as u32)
}

/// The name of a block entity, by its number in the layout: clients before 1.18 are
/// told the name.
pub open spec fn entity_name(id: i32, kinds: Seq<Option<u32>>, names: Seq<Vec<u8>>) -> Option<Seq<u8>> {
    match mapping::unmapped(kinds, id) {
        Some(native) => catalog::name_at(names, native),
        None => None,
    }
}

pub fn block_entity_name<'a>(id: i32, kinds: &IdMapping, names: &'a Vec<Vec<u8>>) -> (res: Option<&'a [u8]>)
    ensures
        catalog::same_text(res, entity_name(id, kinds@, names@)),
{
    match kinds.unmap_id(id) {
        Some(native) => catalog::get_name(names, native),
        None => None,
    }
}

/// The compound of a tag with a root name.
pub open spec fn take_named_compound(s: Seq<u8>) -> Option<(Seq<nbt::Entry>, Seq<u8>)> {
    match nbt::take_nbt(s, true) {
        Some((Some(tag), rest)) => match nbt::compound_of(tag) {
            Some(entries) => Some((entries, rest)),
            None => None,
        },
        _ => None,
    }
}

pub fn read_named_compound(r: &mut &[u8]) -> (res: Result<NbtCompound, ReadingError>)
    ensures
        match take_named_compound(old(r)@) {
            Some((entries, rest)) => res is Ok && res->Ok_0@ == entries && final(r)@ == rest,
            None => res is Err,
        },
{
    let tag: Option<NbtTag> = nbt::get_nbt(r, true)?;
    match tag {
        Some(tag) => match tag.extract_compound() {
            Some(compound) => Ok(compound),
            None => Err(ReadingError::Malformed),
        },
        None => Err(ReadingError::Malformed),
    }
}

/// A block entity as a whole tag, with its name and its place.
pub open spec fn whole_entity(
    entries: Seq<nbt::Entry>,
    name: Seq<u8>,
    place: (u8, u16),
    x: i32,
    z: i32,
) -> Seq<nbt::Entry> {
    let named = nbt::put(entries, wire::key("id"), nbt::string_tag(text::namespaced(name)));
    let at_x = nbt::put(named, wire::key("x"), nbt::int_tag(wrapped(x * 16 + place.0 as int / 16)));
    let at_y = nbt::put(at_x, wire::key("y"), nbt::int_tag(nbt::i16_of(place.1)));
    nbt::put(at_y, wire::key("z"), nbt::int_tag(wrapped(z * 16 + place.0 as int % 16)))
}

/// `n` block entities as whole tags, behind those that were written; those that have
/// no name are left out.
pub open spec fn entities_written(
    kept: nat,
    done: Seq<u8>,
    n: nat,
    s: Seq<u8>,
    x: i32,
    z: i32,
    kinds: Seq<Option<u32>>,
    names: Seq<Vec<u8>>,
) -> Option<(nat, Seq<u8>, Seq<u8>)>
    decreases n,
{
    if n == 0 {
        Some((kept, done, s))
    } else {
        match wire::take_u8(s) {
            Some((xz, s1)) => match wire::take_u16(s1) {
                Some((y, s2)) => match wire::take_var_int(s2) {
                    Some((id, s3)) => match take_named_compound(s3) {
                        Some((entries, rest)) => match entity_name(id, kinds, names) {
                            Some(name) => entities_written(
                                kept + 1,
                                done + nbt::enc_nbt(
                                    Some(nbt::compound_tag(whole_entity(entries, name, (xz, y), x, z))),
                                    true,
                                ),
                                (n - 1) as nat,
                                rest,
                                x,
                                z,
                                kinds,
                                names,
                            ),
                            None => entities_written(kept, done, (n - 1) as nat, rest, x, z, kinds, names),
                        },
                        None => None,
                    },
                    None => None,
                },
                None => None,
            },
            None => None,
        }
    }
}

fn place_entity(compound: &mut NbtCompound, name: &[u8], xz: u8, y: u16, x: i32, z: i32)
    ensures
        final(compound)@ == whole_entity(old(compound)@, name@, (xz, y), x, z),
{
    let full: Vec<u8> = text::with_namespace(name);
    compound.put_string("id".as_bytes(), full.as_slice());
    compound.put_int("x".as_bytes(), block_coordinate(x, xz / 16));
    let height: i32 = if y >= 0x8000 { y as i32 - 0x1_0000 } else { y as i32 };
    compound.put_int("y".as_bytes(), height);
    compound.put_int("z".as_bytes(), block_coordinate(z, xz % 16));
}

/// The block entities of a chunk as whole tags, with how many there are.
#[verifier::loop_isolation(false)]
fn write_block_entities(
    r: &mut &[u8],
    x: i32,
    z: i32,
    kinds: &IdMapping,
    names: &Vec<Vec<u8>>,
) -> (res: Option<(i32, Vec<u8>)>)
    ensures
        match wire::take_var_int(old(r)@) {
            Some((n, s)) => match entities_written(
                0,
                seq![],
                shape::times(n),
                s,
                x,
                z,
                kinds@,
                names@,
            ) {
                Some((kept, bytes, rest)) => res is Some && res.unwrap().0 == kept && res.unwrap().1@ == bytes
                    && final(r)@ == rest,
                None => res is None,
            },
            None => res is None,
        },
{
    let n: i32 = match wire::get_var_int(r) {
        Ok(n) => n,
        Err(_) => {
            return None;
        },
    };
    let ghost wanted = entities_written(0, seq![], shape::times(n), r@, x, z, kinds@, names@);
    let mut out: Vec<u8> = Vec::new();
    let mut kept: i32 = 0;
    let mut left: i32 = n;
    while left > 0
        invariant
            0 <= kept,
            kept <= 0x7fff_ffff - shape::times(left),
            wanted == entities_written(
                kept as nat,
                out@,
                shape::times(left),
                r@,
                x,
                z,
                kinds@,
                names@,
            ),
        decreases left,
    {
        let xz: u8 = match wire::get_u8(r) {
            Ok(xz) => xz,
            Err(_) => {
                return None;
            },
        };
        let y: u16 = match wire::get_u16(r) {
            Ok(y) => y,
            Err(_) => {
                return None;
            },
        };
        let id: i32 = match wire::get_var_int(r) {
            Ok(id) => id,
            Err(_) => {
                return None;
            },
        };
        let mut compound: NbtCompound = match read_named_compound(r) {
            Ok(compound) => compound,
            Err(_) => {
                return None;
            },
        };
        if let Some(name) = block_entity_name(id, kinds, names) {
            place_entity(&mut compound, name, xz, y, x, z);
            nbt::write_nbt(&mut out, &compound.to_tag(), true);
            kept = kept + 1;
        }
        left = left - 1;
    }
    Some((kept, out))
}

// --- chunks ------------------------------------------------------------------------------------------

/// The start of a chunk of 1.18: its place, its heightmaps and its sections.
pub open spec fn take_start(s: Seq<u8>) -> Option<(i32, i32, Seq<u8>, Seq<u8>, Seq<u8>)> {
    match wire::take_i32(s) {
        Some((x, s1)) => match wire::take_i32(s1) {
            Some((z, s2)) => match chunk_remap::raw_nbt(s2, true) {
                Some((heightmaps, s3)) => match wire::take_var_int(s3) {
                    Some((n, s4)) => match wire::take_bytes(s4, n as int) {
                        Some((sections, rest)) => Some((x, z, heightmaps, sections, rest)),
                        None => None,
                    },
                    None => None,
                },
                None => None,
            },
            None => None,
        },
        None => None,
    }
}

/// A chunk of 1.17: its place, which sections it has, its heightmaps, its biomes,
/// its sections and its block entities.
pub open spec fn enc_chunk(
    x: i32,
    z: i32,
    heightmaps: Seq<u8>,
    column: Column,
    entities: (nat, Seq<u8>),
) -> Seq<u8> {
    wire::enc_i32(x) + wire::enc_i32(z) + palette::enc_longs(seq![column.mask]) + heightmaps + palette::enc_palette(
        padded(column.biomes),
    ) + wire::enc_len(column.kept.len()) + column.kept + wire::enc_len(entities.0) + entities.1
}

/// A chunk of 1.18 as one of 1.17, with its light apart: nothing where any of it
/// cannot be read, or where bytes are left over.
#[verifier::opaque]
pub open spec fn chunk_1_17(
    payload: Seq<u8>,
    world_bottom: i32,
    states: Option<Seq<Option<u32>>>,
    kinds: Seq<Option<u32>>,
    names: Seq<Vec<u8>>,
    client_version: Version,
) -> Option<Reframed> {
    match take_start(payload) {
        Some((x, z, heightmaps, sections, s1)) => match column_of(
            empty_column(),
            sections,
            0,
            first_section(world_bottom),
            states,
        ) {
            Some(column) => match wire::take_var_int(s1) {
                Some((n, s2)) => match entities_written(0, seq![], shape::times(n), s2, x, z, kinds, names) {
                    Some((kept, entities, s3)) => match take_light_data(s3) {
                        Some((light, rest)) => if rest.len() == 0 && palette::all_signed(padded(column.biomes))
                            && column.kept.len() <= i32::MAX {
                            Some(
                                Reframed {
                                    chunk: enc_chunk(x, z, heightmaps, column, (kept, entities)),
                                    light_update: enc_light(light, x, z, world_bottom, client_version),
                                },
                            )
                        } else {
                            None
                        },
                        None => None,
                    },
                    None => None,
                },
                None => None,
            },
            None => None,
        },
        None => None,
    }
}

/// Turns a chunk of 1.18 into one of 1.17. `world_bottom` is where the server's
/// sections start; `kinds` are the numbers of block entities in the layout.
pub fn to_v1_17(
    payload: &[u8],
    world_bottom: i32,
    states: Option<&IdMapping>,
    kinds: &IdMapping,
    names: &Vec<Vec<u8>>,
    client_version: Version,
) -> (res: Option<LegacyChunkOutput>)
    ensures
        match chunk_1_17(
            payload@,
            world_bottom,
            chunk_remap::table_view(states),
            kinds@,
            names@,
            client_version,
        ) {
            Some(reframed) => res is Some && res.unwrap()@ == reframed,
            None => res is None,
        },
{
    reveal(chunk_1_17);
    let mut r: &[u8] = payload;
    let (x, z, heightmaps, sections): (i32, i32, &[u8], &[u8]) = match read_start(&mut r) {
        Ok(start) => start,
        Err(_) => {
            return None;
        },
    };
    let first: usize = if -0x8000_0000 < world_bottom && world_bottom < 0 {
        ((-world_bottom) / 16) as usize
    } else {
        0
    };
    let column: ColumnParts = match read_column(sections, first, states) {
        Some(column) => column,
        None => {
            return None;
        },
    };
    let (kept, entities): (i32, Vec<u8>) = match write_block_entities(&mut r, x, z, kinds, names) {
        Some(written) => written,
        None => {
            return None;
        },
    };
    let light: LightData = match read_light_data(&mut r) {
        Ok(light) => light,
        Err(_) => {
            return None;
        },
    };
    if r.len() != 0 || column.kept.len() as u64 > 0x7fff_ffff {
        return None;
    }
    let biomes: Vec<u32> = pad_biomes(&column.biomes);
    let mut chunk: Vec<u8> = Vec::new();
    wire::write_i32(&mut chunk, x);
    wire::write_i32(&mut chunk, z);
    let mask: Vec<u64> = vec![column.mask];
    palette::write_longs(&mut chunk, &mask);
    wire::write_bytes(&mut chunk, heightmaps);
    wire::write_len(&mut chunk, biomes.len());
    if !palette::write_ids(&mut chunk, &biomes) {
        return None;
    }
    wire::write_len(&mut chunk, column.kept.len());
    wire::write_bytes(&mut chunk, column.kept.as_slice());
    wire::write_len(&mut chunk, kept as usize);
    wire::write_bytes(&mut chunk, entities.as_slice());
    proof {
        assert(mask@ =~= seq![column.mask]);
        assert(chunk@ =~= enc_chunk(x, z, heightmaps@, column@, (kept as nat, entities@)));
    }
    let light_update: Vec<u8> = write_light(&light, x, z, world_bottom, client_version);
    Some(LegacyChunkOutput { chunk, light_update })
}

fn read_start<'a>(r: &mut &'a [u8]) -> (res: Result<(i32, i32, &'a [u8], &'a [u8]), ReadingError>)
    ensures
        match take_start(old(r)@) {
            Some((x, z, heightmaps, sections, rest)) => res is Ok && res->Ok_0.0 == x && res->Ok_0.1 == z
                && res->Ok_0.2@ == heightmaps && res->Ok_0.3@ == sections && final(r)@ == rest,
            None => res is Err,
        },
{
    let x: i32 = wire::get_i32(r)?;
    let z: i32 = wire::get_i32(r)?;
    let heightmaps: &'a [u8] = chunk_remap::get_raw_nbt(r, true)?;
    let n: i32 = wire::get_var_int(r)?;
    if n < 0 {
        return Err(ReadingError::Malformed);
    }
    let sections: &'a [u8] = wire::get_bytes(r, n as usize)?;
    Ok((x, z, heightmaps, sections))
}

/// `n` sections of 1.17 with their states renumbered, behind those that were
/// written.
pub open spec fn sections_rewritten(
    done: Seq<u8>,
    n: nat,
    s: Seq<u8>,
    states: Option<Seq<Option<u32>>>,
) -> Option<(Seq<u8>, Seq<u8>)>
    decreases n,
{
    if n == 0 {
        Some((done, s))
    } else {
        match wire::take_u16(s) {
            Some((count, t)) => match take_container(t) {
                Some((blocks, rest)) => match container_written(blocks, states, global_bits(states)) {
                    Some(bytes) => sections_rewritten(
                        done + wire::enc_u16(count) + bytes,
                        (n - 1) as nat,
                        rest,
                        states,
                    ),
                    None => None,
                },
                None => None,
            },
            None => None,
        }
    }
}

/// What a chunk of 1.16 and one of 1.17 share behind the mask.
pub open spec fn column_rewritten(
    s: Seq<u8>,
    mask: u64,
    states: Option<Seq<Option<u32>>>,
) -> Option<Seq<u8>> {
    match chunk_remap::raw_nbt(s, true) {
        Some((heightmaps, s1)) => match wire::take_var_int(s1) {
            Some((n, s2)) => match chunk_remap::palette_copied(
                wire::enc_var_int(n),
                shape::times(n),
                s2,
                None,
            ) {
                Some((biomes, s3)) => match wire::take_var_int(s3) {
                    Some((length, s4)) => match wire::take_bytes(s4, length as int) {
                        Some((sections, rest)) => match sections_rewritten(
                            seq![],
                            lit_count(seq![mask]),
                            sections,
                            states,
                        ) {
                            Some((written, left)) => if left.len() == 0 && written.len() <= i32::MAX {
                                Some(heightmaps + biomes + wire::enc_len(written.len()) + written + rest)
                            } else {
                                None
                            },
                            None => None,
                        },
                        None => None,
                    },
                    None => None,
                },
                None => None,
            },
            None => None,
        },
        None => None,
    }
}

/// The mask of a chunk of 1.17 as one word; more cannot be named by a number.
pub open spec fn only_word(words: Seq<u64>) -> Option<u64> {
    if words.len() == 0 {
        Some(0)
    } else if words.len() == 1 {
        Some(words[0])
    } else {
        None
    }
}

/// A chunk of 1.17 as one of 1.16, with a flag for a whole chunk and a number for
/// the mask.
pub open spec fn chunk_1_16(payload: Seq<u8>, states: Option<Seq<Option<u32>>>) -> Option<Seq<u8>> {
    match wire::take_i32(payload) {
        Some((x, s1)) => match wire::take_i32(s1) {
            Some((z, s2)) => match palette::take_longs(s2) {
                Some((words, s3)) => match only_word(words) {
                    Some(mask) => if i32::MIN <= wire::i64_of_bits(mask) <= i32::MAX {
                        match column_rewritten(s3, mask, states) {
                            Some(column) => Some(
                                wire::enc_i32(x) + wire::enc_i32(z) + wire::enc_bool(true) + wire::enc_var_int(
                                    wire::i64_of_bits(mask) as i32,
                                ) + column,
                            ),
                            None => None,
                        }
                    } else {
                        None
                    },
                    None => None,
                },
                None => None,
            },
            None => None,
        },
        None => None,
    }
}

#[verifier::loop_isolation(false)]
fn rewrite_sections(n: usize, r: &mut &[u8], states: Option<&IdMapping>) -> (res: Option<Vec<u8>>)
    ensures
        match sections_rewritten(seq![], n as nat, old(r)@, chunk_remap::table_view(states)) {
            Some((bytes, rest)) => res is Some && res.unwrap()@ == bytes && final(r)@ == rest,
            None => res is None,
        },
{
    let ghost table = chunk_remap::table_view(states);
    let ghost wanted = sections_rewritten(seq![], n as nat, r@, table);
    let bits: Option<u8> = global_palette_bits(states);
    let mut out: Vec<u8> = Vec::new();
    let mut left: usize = n;
    while left > 0
        invariant
            wanted == sections_rewritten(out@, left as nat, r@, table),
        decreases left,
    {
        let count: u16 = match wire::get_u16(r) {
            Ok(count) => count,
            Err(_) => {
                return None;
            },
        };
        proof {
            lemma_container_is_whole(r@);
        }
        let blocks: BlockContainer = match BlockContainer::read(r) {
            Ok(blocks) => blocks,
            Err(_) => {
                return None;
            },
        };
        wire::write_u16(&mut out, count);
        if !blocks.write(&mut out, states, bits) {
            return None;
        }
        left = left - 1;
    }
    Some(out)
}

fn copy_rest_of_column(r: &mut &[u8], mask: u64, states: Option<&IdMapping>) -> (res: Option<Vec<u8>>)
    ensures
        chunk_remap::gave_bytes(res, column_rewritten(old(r)@, mask, chunk_remap::table_view(states))),
{
    let heightmaps: &[u8] = match chunk_remap::get_raw_nbt(r, true) {
        Ok(heightmaps) => heightmaps,
        Err(_) => {
            return None;
        },
    };
    let n: i32 = match wire::get_var_int(r) {
        Ok(n) => n,
        Err(_) => {
            return None;
        },
    };
    let mut biomes: Vec<u8> = wire::var_int_bytes(n);
    if chunk_remap::copy_palette(n, r, &mut biomes, None).is_err() {
        return None;
    }
    let length: i32 = match wire::get_var_int(r) {
        Ok(length) => length,
        Err(_) => {
            return None;
        },
    };
    if length < 0 {
        return None;
    }
    let mut sections: &[u8] = match wire::get_bytes(r, length as usize) {
        Ok(sections) => sections,
        Err(_) => {
            return None;
        },
    };
    let words: Vec<u64> = vec![mask];
    assert(words@ =~= seq![mask]);
    let written: Vec<u8> = match rewrite_sections(count_lit(&words, 64), &mut sections, states) {
        Some(written) => written,
        None => {
            return None;
        },
    };
    if sections.len() != 0 || written.len() as u64 > 0x7fff_ffff {
        return None;
    }
    let mut out: Vec<u8> = Vec::new();
    wire::write_bytes(&mut out, heightmaps);
    wire::write_bytes(&mut out, biomes.as_slice());
    wire::write_len(&mut out, written.len());
    wire::write_bytes(&mut out, written.as_slice());
    wire::write_bytes(&mut out, *r);
    assert(out@ =~= heightmaps@ + biomes@ + wire::enc_len(written.len() as nat) + written@ + r@);
    Some(out)
}

/// Turns a chunk of 1.17 into one of 1.16, with its states renumbered.
pub fn to_v1_16(payload: &[u8], states: Option<&IdMapping>) -> (res: Option<Vec<u8>>)
    ensures
        chunk_remap::gave_bytes(res, chunk_1_16(payload@, chunk_remap::table_view(states))),
{
    let mut r: &[u8] = payload;
    let x: i32 = match wire::get_i32(&mut r) {
        Ok(x) => x,
        Err(_) => {
            return None;
        },
    };
    let z: i32 = match wire::get_i32(&mut r) {
        Ok(z) => z,
        Err(_) => {
            return None;
        },
    };
    let words: Vec<u64> = match palette::read_longs(&mut r) {
        Ok(words) => words,
        Err(_) => {
            return None;
        },
    };
    if words.len() > 1 {
        return None;
    }
    let mask: u64 = if words.len() == 0 { 0 } else { words[0] };
    let number: i64 = wire::i64_from_bits(mask);
    if number < -0x8000_0000 || number > 0x7fff_ffff {
        return None;
    }
    let column: Vec<u8> = match copy_rest_of_column(&mut r, mask, states) {
        Some(column) => column,
        None => {
            return None;
        },
    };
    let mut out: Vec<u8> = Vec::new();
    wire::write_i32(&mut out, x);
    wire::write_i32(&mut out, z);
    wire::write_bool(&mut out, true);
    wire::write_var_int(&mut out, number as i32);
    wire::write_bytes(&mut out, column.as_slice());
    assert(out@ =~= wire::enc_i32(x) + wire::enc_i32(z) + wire::enc_bool(true) + wire::enc_var_int(number as i32)
        + column@);
    Some(out)
}

// --- laws --------------------------------------------------------------------------------------------

/// A container that was written for an older client reads back as the blocks'
/// renumbered states, whatever stands behind it and whichever form it took.
pub proof fn written_containers_read_back(
    blocks: Blocks,
    states: Option<Seq<Option<u32>>>,
    rest: Seq<u8>,
)
    requires
        blocks.values.len() == BLOCKS_PER_SECTION,
        blocks.direct_bits matches Some(bits) ==> 9 <= bits <= 32,
    ensures
        container_written(blocks, states, global_bits(states)) matches Some(bytes) ==> (take_container(
            bytes + rest,
        ) matches Some((read, left)) && read.values == states_mapped(blocks.values, states) && left == rest),
{
    let mapped = states_mapped(blocks.values, states);
    let palette = firsts(mapped);
    let bits = written_bits(mapped, blocks.direct_bits, global_bits(states));
    lemma_firsts(mapped);
    if let Some(bytes) = container_written(blocks, states, global_bits(states)) {
        if palette.len() <= 256 {
            let indices = places(mapped, palette);
            lemma_places(mapped);
            lemma_palette_bits(palette.len(), indices, bits);
            let words = palette::packed(indices, bits);
            let tail = palette::enc_longs(words) + rest;
            assert((bytes + rest).skip(1) =~= palette::enc_palette(palette) + tail);
            palette::palette_round_trip(palette, tail);
            lemma_section_words(indices.len(), bits);
            palette::longs_round_trip(words, rest);
            palette::packed_numbers_come_back(indices, bits);
            assert(palette::looked_up(indices, palette).unwrap() =~= mapped);
        } else {
            lemma_direct_bits(mapped, blocks.direct_bits, states);
            let words = palette::packed(mapped, bits);
            assert((bytes + rest).skip(1) =~= palette::enc_longs(words) + rest);
            lemma_section_words(mapped.len(), bits);
            palette::longs_round_trip(words, rest);
            palette::packed_numbers_come_back(mapped, bits);
        }
    }
}

proof fn lemma_section_words(count: nat, bits: u8)
    requires
        count == BLOCKS_PER_SECTION,
        1 <= bits <= 32,
    ensures
        palette::long_count(count, bits) <= 4096,
{
    let per = palette::per_long(bits) as int;
    assert(per >= 2) by (nonlinear_arith)
        requires
            per == 64int / bits as int,
            1 <= bits <= 32,
    ;
    assert((4096 + per - 1) / per <= 4096) by (nonlinear_arith)
        requires
            per >= 2,
    ;
}

proof fn lemma_direct_bits(mapped: Seq<u32>, direct_bits: Option<u8>, states: Option<Seq<Option<u32>>>)
    requires
        firsts(mapped).len() > 256,
        direct_bits matches Some(bits) ==> 9 <= bits <= 32,
    ensures
        9 <= written_bits(mapped, direct_bits, global_bits(states)) <= 32,
{
    vstd::arithmetic::power2::lemma2_to64();
    lemma_width_is_bounded(highest(mapped) as nat, 32);
    if let Some(slots) = states {
        if let Some(target) = highest_target(slots, None, 0) {
            lemma_width_is_bounded(target as nat, 32);
        }
    }
}

proof fn lemma_cut_count(mask: Seq<u64>, start: int, n: nat)
    requires
        0 <= start,
    ensures
        lit_before(mask, start + n) - lit_before(mask, start) == lit_in(mask, start, n),
    decreases n,
{
    if n > 0 {
        lemma_cut_count(mask, start, (n - 1) as nat);
    }
}

/// The sections of a mask among `n` from `start` on.
pub open spec fn lit_in(mask: Seq<u64>, start: int, n: nat) -> nat
    decreases n,
{
    if n == 0 {
        0
    } else if lit(mask, start + n - 1) {
        lit_in(mask, start, (n - 1) as nat) + 1
    } else {
        lit_in(mask, start, (n - 1) as nat)
    }
}

proof fn lemma_cut_mask_bits(mask: Seq<u64>, start: int, n: nat)
    requires
        n <= 18,
    ensures
        cut_mask(mask, start, n) < pow2(n),
        forall|b: nat| b < n ==> #[trigger] has_bit(cut_mask(mask, start, n), b) == lit(mask, start + b),
    decreases n,
{
    vstd::arithmetic::power2::lemma2_to64();
    if n > 0 {
        let m = (n - 1) as nat;
        let low = cut_mask(mask, start, m);
        let all = cut_mask(mask, start, n);
        lemma_cut_mask_bits(mask, start, m);
        vstd::arithmetic::power2::lemma_pow2_unfold(n);
        assert forall|b: nat| b < n implies #[trigger] has_bit(all, b) == lit(mask, start + b) by {
            let p = pow2(b) as int;
            vstd::arithmetic::power2::lemma_pow2_pos(b);
            if b == m {
                assert(low as int / p == 0 && (low + p) / p == 1) by (nonlinear_arith)
                    requires
                        0 <= low < p,
                ;
            } else {
                assert(has_bit(low, b) == lit(mask, start + b));
                let k = (m - b) as nat;
                vstd::arithmetic::power2::lemma_pow2_adds(b, k);
                vstd::arithmetic::power2::lemma_pow2_unfold(k);
                let half = pow2((k - 1) as nat) as int;
                let top = pow2(m) as int;
                assert(top == p * (2 * half));
                assert((low + top) / p == low as int / p + 2 * half) by (nonlinear_arith)
                    requires
                        top == p * (2 * half),
                        p > 0,
                ;
            }
        }
    }
}

/// Whether a number has a bit.
pub open spec fn has_bit(n: nat, bit: nat) -> bool {
    n as int / pow2(bit) as int % 2 == 1
}

/// A cut light packet has one array for every section of its cut mask. Its mask has
/// eighteen bits, each that of its section; its arrays are those of the sections in
/// the window, in their order: a section's array is the one that its place among the
/// lit sections of the whole mask gives.
pub proof fn cut_light_keeps_masks_and_arrays_together(mask: Seq<u64>, arrays: Seq<Seq<u8>>, start: int)
    requires
        0 <= start,
        arrays.len() == lit_count(mask),
    ensures
        cut_mask(mask, start, 18) < 0x4_0000,
        forall|b: nat| b < 18 ==> #[trigger] has_bit(cut_mask(mask, start, 18), b) == lit(mask, start + b),
        cut_arrays(mask, arrays, start).len() == lit_in(mask, start, 18),
        forall|b: nat|
            b < 18 && lit(mask, start + b) ==> lit_in(mask, start, b) < cut_arrays(mask, arrays, start).len()
                && cut_arrays(mask, arrays, start)[#[trigger] lit_in(mask, start, b) as int] == arrays[lit_before(
                mask,
                start + b,
            ) as int],
{
    vstd::arithmetic::power2::lemma2_to64();
    lemma_cut_mask_bits(mask, start, 18);
    lemma_cut_count(mask, start, 18);
    lemma_lit_grows(mask, start, start + 18);
    lemma_lit_is_bounded(mask, start + 18);
    assert forall|b: nat| b < 18 && lit(mask, start + b) implies lit_in(mask, start, b) < cut_arrays(
        mask,
        arrays,
        start,
    ).len() && cut_arrays(mask, arrays, start)[#[trigger] lit_in(mask, start, b) as int] == arrays[lit_before(
        mask,
        start + b,
    ) as int] by {
        lemma_cut_count(mask, start, b);
        lemma_lit_grows(mask, start + b + 1, start + 18);
    }
}

/// A column has biomes for all of the client's world, however high the server's is: above
/// its top the biome of the top goes on.
pub proof fn columns_have_all_biomes(biomes: Seq<u32>)
    ensures
        padded(biomes).len() == BIOMES_PER_COLUMN,
        forall|i: int|
            0 < biomes.len() <= i < BIOMES_PER_COLUMN ==> (#[trigger] padded(biomes)[i]) == biomes[biomes.len() - 1],
        forall|i: int| 0 <= i < BIOMES_PER_COLUMN && biomes.len() == 0 ==> (#[trigger] padded(biomes)[i]) == 0,
        forall|i: int| 0 <= i < BIOMES_PER_COLUMN && i < biomes.len() ==> (#[trigger] padded(biomes)[i]) == biomes[i],
{
}

// --- whole payloads ------------------------------------------------------------------------------------

proof fn lemma_words_extend(words: Seq<u64>, n: nat, s: Seq<u8>, more: Seq<u8>)
    ensures
        palette::take_words(words, n, s) matches Some((all, rest)) ==> palette::take_words(words, n, s + more) == Some(
            (all, rest + more),
        ),
    decreases n,
{
    if n > 0 {
        wire::numbers_extend(s, more, 0);
        if let Some((word, rest)) = wire::take_u64(s) {
            lemma_words_extend(words.push(word), (n - 1) as nat, rest, more);
        }
    }
}

proof fn lemma_mask_extends(s: Seq<u8>, more: Seq<u8>)
    ensures
        take_mask(s) matches Some((mask, rest)) ==> take_mask(s + more) == Some((mask, rest + more)),
{
    wire::var_ints_extend(s, more);
    if let Some((n, rest)) = wire::take_var_int(s) {
        if 0 <= n {
            lemma_words_extend(seq![], n as nat, rest, more);
        }
    }
}

proof fn lemma_arrays_extend(done: Seq<Seq<u8>>, n: nat, s: Seq<u8>, more: Seq<u8>)
    ensures
        take_arrays(done, n, s) matches Some((all, rest)) ==> take_arrays(done, n, s + more) == Some(
            (all, rest + more),
        ),
    decreases n,
{
    if n > 0 {
        wire::var_ints_extend(s, more);
        if let Some((length, t)) = wire::take_var_int(s) {
            wire::numbers_extend(t, more, length as int);
            if let Some((array, rest)) = wire::take_bytes(t, length as int) {
                lemma_arrays_extend(done.push(array), (n - 1) as nat, rest, more);
            }
        }
    }
}

proof fn lemma_light_extends(s: Seq<u8>, mask: Seq<u64>, more: Seq<u8>)
    ensures
        take_light(s, mask) matches Some((arrays, rest)) ==> take_light(s + more, mask) == Some((arrays, rest + more)),
{
    wire::var_ints_extend(s, more);
    if let Some((n, rest)) = wire::take_var_int(s) {
        if 0 <= n {
            lemma_arrays_extend(seq![], n as nat, rest, more);
        }
    }
}

proof fn lemma_light_data_extends(s: Seq<u8>, more: Seq<u8>)
    ensures
        take_light_data(s) matches Some((light, rest)) ==> take_light_data(s + more) == Some((light, rest + more)),
{
    if take_light_data(s) is Some {
        let (trust_edges, s1) = wire::take_bool(s).unwrap();
        let (sky, s2) = take_mask(s1).unwrap();
        let (block, s3) = take_mask(s2).unwrap();
        let (empty_sky, s4) = take_mask(s3).unwrap();
        let (empty_block, s5) = take_mask(s4).unwrap();
        let (sky_arrays, s6) = take_light(s5, sky).unwrap();
        wire::numbers_extend(s, more, 0);
        lemma_mask_extends(s1, more);
        lemma_mask_extends(s2, more);
        lemma_mask_extends(s3, more);
        lemma_mask_extends(s4, more);
        lemma_light_extends(s5, sky, more);
        lemma_light_extends(s6, block, more);
    }
}

proof fn lemma_entities_extend(
    kept: nat,
    done: Seq<u8>,
    n: nat,
    s: Seq<u8>,
    x: i32,
    z: i32,
    kinds: Seq<Option<u32>>,
    names: Seq<Vec<u8>>,
    more: Seq<u8>,
)
    ensures
        entities_written(kept, done, n, s, x, z, kinds, names) matches Some((count, bytes, rest)) ==> entities_written(
            kept,
            done,
            n,
            s + more,
            x,
            z,
            kinds,
            names,
        ) == Some((count, bytes, rest + more)),
    decreases n,
{
    if n > 0 && entities_written(kept, done, n, s, x, z, kinds, names) is Some {
        let (xz, s1) = wire::take_u8(s).unwrap();
        let (y, s2) = wire::take_u16(s1).unwrap();
        let (id, s3) = wire::take_var_int(s2).unwrap();
        let (entries, rest) = take_named_compound(s3).unwrap();
        wire::numbers_extend(s, more, 0);
        wire::numbers_extend(s1, more, 0);
        wire::var_ints_extend(s2, more);
        nbt::tags_extend(s3, true, more);
        match entity_name(id, kinds, names) {
            Some(name) => {
                let whole = nbt::enc_nbt(
                    Some(nbt::compound_tag(whole_entity(entries, name, (xz, y), x, z))),
                    true,
                );
                lemma_entities_extend(kept + 1, done + whole, (n - 1) as nat, rest, x, z, kinds, names, more);
            },
            None => {
                lemma_entities_extend(kept, done, (n - 1) as nat, rest, x, z, kinds, names, more);
            },
        }
    }
}

#[verifier::spinoff_prover]
#[verifier::rlimit(60)]
proof fn lemma_start_extends(s: Seq<u8>, more: Seq<u8>)
    ensures
        take_start(s) matches Some((x, z, heightmaps, sections, rest)) ==> take_start(s + more) == Some(
            (x, z, heightmaps, sections, rest + more),
        ),
{
    if take_start(s) is Some {
        let (x, s1) = wire::take_i32(s).unwrap();
        let (z, s2) = wire::take_i32(s1).unwrap();
        let (heightmaps, s3) = chunk_remap::raw_nbt(s2, true).unwrap();
        let (n, s4) = wire::take_var_int(s3).unwrap();
        wire::numbers_extend(s, more, 0);
        wire::numbers_extend(s1, more, 0);
        nbt::tags_extend(s2, true, more);
        assert((s2 + more).skip(1) =~= s2.skip(1) + more);
        wire::numbers_extend(s2.skip(1), more, 0);
        assert((s2 + more).take(s2.len() - s3.len()) =~= heightmaps);
        assert(chunk_remap::raw_nbt(s2 + more, true) == Some((heightmaps, s3 + more)));
        wire::var_ints_extend(s3, more);
        wire::numbers_extend(s4, more, n as int);
    }
}

/// A payload that is not whole is dropped: where a chunk can be turned, the same chunk
/// with bytes left over cannot.
pub proof fn nothing_is_left_over(
    payload: Seq<u8>,
    more: Seq<u8>,
    world_bottom: i32,
    states: Option<Seq<Option<u32>>>,
    kinds: Seq<Option<u32>>,
    names: Seq<Vec<u8>>,
    client_version: Version,
)
    requires
        chunk_1_17(payload, world_bottom, states, kinds, names, client_version) is Some,
        more.len() > 0,
    ensures
        chunk_1_17(payload + more, world_bottom, states, kinds, names, client_version) is None,
{
    reveal(chunk_1_17);
    lemma_start_extends(payload, more);
    let (x, z, heightmaps, sections, s1) = take_start(payload).unwrap();
    wire::var_ints_extend(s1, more);
    let (n, s2) = wire::take_var_int(s1).unwrap();
    lemma_entities_extend(0, seq![], shape::times(n), s2, x, z, kinds, names, more);
    let (kept, entities, s3) = entities_written(0, seq![], shape::times(n), s2, x, z, kinds, names).unwrap();
    lemma_light_data_extends(s3, more);
}

/// A payload that is not whole is dropped: where a chunk can be turned, the same chunk
/// without its last byte cannot.
pub proof fn nothing_is_cut_off(
    payload: Seq<u8>,
    world_bottom: i32,
    states: Option<Seq<Option<u32>>>,
    kinds: Seq<Option<u32>>,
    names: Seq<Vec<u8>>,
    client_version: Version,
)
    requires
        chunk_1_17(payload, world_bottom, states, kinds, names, client_version) is Some,
    ensures
        payload.len() > 0,
        chunk_1_17(payload.drop_last(), world_bottom, states, kinds, names, client_version) is None,
{
    assert(payload.len() > 0) by {
        reveal(chunk_1_17);
    }
    let cut = payload.drop_last();
    if chunk_1_17(cut, world_bottom, states, kinds, names, client_version) is Some {
        nothing_is_left_over(cut, seq![payload.last()], world_bottom, states, kinds, names, client_version);
        assert(cut + seq![payload.last()] =~= payload);
    }
}

} // verus!
