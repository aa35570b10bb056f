use java_multiversion::catalog::Catalog;
use java_multiversion::chunk_legacy;
use java_multiversion::chunk_legacy::{
    cut_light_arrays, global_palette_bits, light_mask_contains, read_named_compound, to_v1_16, to_v1_17, BlockContainer,
    BIOMES_PER_COLUMN, BIOMES_PER_SECTION, LEGACY_BLOCK_BITS,
};
use java_multiversion::chunk_remap::{
    append_chunk_block_entities, chunk_tail, copy_container, get_raw_nbt, matching_block_positions,
    matching_indices_in_block_palette, remap_block_state, remap_chunk_payload, BLOCKS_PER_SECTION,
    MAX_INDIRECT_BLOCK_BITS,
};
use java_multiversion::mapping::{ComposedMappings, IdMapping};
use java_multiversion::nbt::{write_nbt, NbtCompound};
use java_multiversion::palette;
use java_multiversion::palette::{pack, packed_long_count, per_long, read_longs, unpack, write_longs};
use java_multiversion::position::{pack_block_position, unpack_block_position};
use java_multiversion::target::{Target, Texts};
use java_multiversion::version;
use java_multiversion::wire;

/// The server's number for stone.
const STONE: i32 = 1;
/// The server's number for a chest.
const CHEST: i32 = 2;

fn table(size: u32, map: impl Fn(u32) -> Option<u32>) -> IdMapping {
    IdMapping { slots: (0..size).map(map).collect() }
}

/// Two neighbouring numbers trade places.
fn swapped(size: u32, low: u32) -> IdMapping {
    table(size, |id| {
        Some(if id == low {
            low + 1
        } else if id == low + 1 {
            low
        } else {
            id
        })
    })
}

struct World {
    version: u32,
    ids: ComposedMappings,
    cat: Catalog,
    texts: Texts,
}

impl World {
    fn target(&self) -> Target<'_> {
        Target { version: self.version, ids: &self.ids, cat: &self.cat, texts: &self.texts }
    }

    fn state(&self, native: i32) -> i32 {
        self.ids.block_states.map_id(native).unwrap()
    }
}

fn world(version: u32) -> World {
    let none = || table(0, |_| None);
    World {
        version,
        ids: ComposedMappings {
            items: none(),
            blocks: none(),
            // Air stays, and the last state is unknown to clients.
            block_states: table(1000, |id| match id {
                0 => Some(0),
                999 => None,
                _ => Some(id + 5),
            }),
            entities: none(),
            blockentities: table(5, |id| Some(id + 1)),
            enchantments: none(),
            attributes: none(),
            paintings: none(),
            sounds: none(),
            particles: none(),
            recipe_serializers: none(),
            slot_displays: none(),
            data_component_type: none(),
            custom_model_data: Vec::new(),
        },
        cat: Catalog {
            components: Vec::new(),
            layouts: Vec::new(),
            registries: Vec::new(),
            enchantments: Vec::new(),
            potions: Vec::new(),
            attributes: Vec::new(),
            items: Vec::new(),
            enchantment_names: Vec::new(),
            enchantments_1_20_5: none(),
            block_entities: ["furnace", "barrel", "chest", "sign", "bell"]
                .iter()
                .map(|name| name.as_bytes().to_vec())
                .collect(),
            particles: Vec::new(),
            sounds: Vec::new(),
        },
        texts: Texts { rendered: Vec::new(), parsed: Vec::new() },
    }
}

// --- renumbered chunks ------------------------------------------------------------------

fn chunk_1_21_4(stone: i32) -> Vec<u8> {
    let mut sections = Vec::new();
    // Section 1: 4096 blocks, single palette.
    wire::write_u16(&mut sections, 4096);
    sections.push(0);
    wire::write_var_int(&mut sections, stone);
    wire::write_var_int(&mut sections, 0); // packed data length
    sections.push(0); // biome single palette
    wire::write_var_int(&mut sections, 1);
    wire::write_var_int(&mut sections, 0);
    // Section 2: indirect palette [air, stone], 4 bits per entry.
    wire::write_u16(&mut sections, 1);
    sections.push(4);
    wire::write_var_int(&mut sections, 2);
    wire::write_var_int(&mut sections, 0);
    wire::write_var_int(&mut sections, stone);
    wire::write_var_int(&mut sections, 256);
    for _ in 0..256 {
        wire::write_i64(&mut sections, 0);
    }
    sections.push(0);
    wire::write_var_int(&mut sections, 1);
    wire::write_var_int(&mut sections, 0);

    let mut payload = Vec::new();
    wire::write_i32(&mut payload, 3);
    wire::write_i32(&mut payload, -4);
    // Empty unnamed compound.
    payload.push(10);
    payload.push(0);
    wire::write_len(&mut payload, sections.len());
    payload.extend_from_slice(&sections);
    // Block entities: none. Light: stand-in bytes.
    wire::write_var_int(&mut payload, 0);
    payload.extend_from_slice(&[7, 7, 7]);
    payload
}

fn remap(payload: &[u8], world: &World) -> Option<Vec<u8>> {
    let tail = chunk_tail(payload, &world.target());
    remap_chunk_payload(payload, tail.as_deref(), &world.target())
}

#[test]
fn finds_matching_positions_in_a_single_value_section() {
    let world = world(version::V_1_21_4);
    let payload = remap(&chunk_1_21_4(STONE), &world).unwrap();
    let mapped = world.state(STONE);

    let found = matching_block_positions(&payload, &world.target(), -64, |state| state == mapped)
        .expect("remapped chunk should scan");
    assert_eq!(found.len(), BLOCKS_PER_SECTION);
    assert!(found.contains(&pack_block_position(48, -64, -64)));
    assert!(found.contains(&pack_block_position(63, -49, -49)));
}

#[test]
fn finds_a_matching_index_in_an_indirect_palette() {
    let mut container = vec![4];
    wire::write_var_int(&mut container, 2);
    wire::write_var_int(&mut container, 0);
    wire::write_var_int(&mut container, 42);
    wire::write_var_int(&mut container, 256);
    wire::write_i64(&mut container, 1); // index zero selects palette entry one
    for _ in 1..256 {
        wire::write_i64(&mut container, 0);
    }

    let mut cursor = container.as_slice();
    let found = matching_indices_in_block_palette(&mut cursor, version::V_1_21_4, &|state| state == 42)
        .expect("indirect palette should scan");
    assert!(cursor.is_empty());
    assert_eq!(found, [0]);
}

#[test]
fn remaps_direct_block_states_without_changing_the_palette_width() {
    let world = world(version::V_1_21_4);
    let source = STONE as u32;
    let expected = remap_block_state(source, &world.ids.block_states);
    let bits = 16;
    let entries = per_long(bits);
    let long_count = packed_long_count(BLOCKS_PER_SECTION, bits);

    let mut input = vec![bits];
    wire::write_len(&mut input, long_count);
    for long_index in 0..long_count {
        let mut packed = 0u64;
        for slot in 0..entries {
            if long_index * entries + slot >= BLOCKS_PER_SECTION {
                break;
            }
            packed |= u64::from(source) << (slot * usize::from(bits));
        }
        wire::write_u64(&mut input, packed);
    }

    let mut cursor = input.as_slice();
    let mut output = Vec::new();
    copy_container(
        &mut cursor,
        &mut output,
        BLOCKS_PER_SECTION,
        MAX_INDIRECT_BLOCK_BITS,
        Some(&world.ids.block_states),
        world.version,
    )
    .expect("direct palette should remap");
    assert!(cursor.is_empty());

    let mut rewritten = output.as_slice();
    assert_eq!(wire::get_u8(&mut rewritten).unwrap(), bits);
    assert_eq!(wire::get_var_int(&mut rewritten).unwrap(), long_count as i32);
    let first_word = wire::get_u64(&mut rewritten).unwrap();
    assert_eq!(first_word & ((1u64 << bits) - 1), u64::from(expected));
}

fn assert_remapped(version: u32) {
    let world = world(version);
    let out = remap(&chunk_1_21_4(STONE), &world).expect("the chunk parses");
    assert_eq!(&out[out.len() - 3..], &[7, 7, 7], "tail copied through");

    // Position, empty NBT (2 bytes), blob length, block count.
    let mut cursor = &out[8 + 2..];
    let _blob_len = wire::get_var_int(&mut cursor).unwrap();
    assert_eq!(wire::get_u16(&mut cursor).unwrap(), 4096);
    assert_eq!(wire::get_u8(&mut cursor).unwrap(), 0);
    assert_eq!(wire::get_var_int(&mut cursor).unwrap(), world.state(STONE));
}

#[test]
fn remaps_palettes_in_the_1_21_4_layout() {
    assert_remapped(version::V_1_21_4);
}

#[test]
fn remaps_palettes_in_the_1_20_5_layout() {
    assert_remapped(version::V_1_20_5);
}

#[test]
fn remaps_palettes_in_the_1_20_2_and_1_20_3_layouts() {
    for version in [version::V_1_20_2, version::V_1_20_3] {
        assert_remapped(version);
    }
}

#[test]
fn unnamed_heightmap_root_starts_at_1_20_2() {
    let mut heightmaps = vec![10, 12]; // A compound with an array of longs.
    wire::write_u16(&mut heightmaps, 15);
    heightmaps.extend_from_slice(b"MOTION_BLOCKING");
    wire::write_i32(&mut heightmaps, 2);
    wire::write_i64(&mut heightmaps, 0);
    wire::write_i64(&mut heightmaps, 0);
    heightmaps.push(0);

    let empty = chunk_1_21_4(1);
    let mut payload = Vec::new();
    payload.extend_from_slice(&empty[..8]);
    payload.extend_from_slice(&heightmaps);
    payload.extend_from_slice(&empty[8 + 2..]);

    for version in [version::V_1_20_2, version::V_1_20_3, version::V_1_20_5] {
        assert!(remap(&payload, &world(version)).is_some(), "{version} reads an unnamed heightmaps root");
    }
    assert!(
        remap(&payload, &world(version::V_1_20)).is_none(),
        "1.20 expects a root name and must reject these bytes"
    );
}

#[test]
fn rejects_layouts_older_than_1_18() {
    let payload = chunk_1_21_4(1);
    let tail = [0u8];
    for version in [version::V_1_17_1, version::V_1_16_2] {
        assert!(remap_chunk_payload(&payload, Some(&tail), &world(version).target()).is_none());
    }
}

#[test]
fn truncated_payload_is_rejected_not_forwarded() {
    let payload = chunk_1_21_4(1);
    let world = world(version::V_1_21_4);
    for cut in [9, 12, 20, payload.len() - 40] {
        assert!(remap(&payload[..cut], &world).is_none(), "cut at {cut}");
    }
}

#[test]
fn states_that_the_client_lacks_are_air() {
    let states = world(version::V_1_21_4).ids.block_states;
    assert_eq!(remap_block_state(STONE as u32, &states), 6);
    assert_eq!(remap_block_state(999, &states), 0);
    assert_eq!(remap_block_state(5000, &states), 0);
    assert_eq!(remap_block_state(0, &table(1, |_| Some(0x1_0000))), 0);
}

#[test]
fn block_positions_pack_and_unpack() {
    for (x, y, z) in [(0, 0, 0), (-1, -64, 3), (33_554_431, 2047, -33_554_432), (-7, -2048, 7)] {
        let packed = pack_block_position(x, y, z);
        let (back_x, back_y, back_z) = unpack_block_position(packed);
        assert_eq!((i64::from(back_x), i64::from(back_y), i64::from(back_z)), (x, y, z));
    }
    assert_eq!(pack_block_position(1, 2, 3), (1 << 38) | (3 << 12) | 2);
}

#[test]
fn packed_numbers_unpack_again() {
    let values: Vec<u32> = (0..4096).map(|n| n * 7 % 500).collect();
    let words = pack(&values, 9);
    assert_eq!(words.len(), packed_long_count(values.len(), 9));
    assert_eq!(unpack(&words, 9, values.len()), Some(values));
    assert_eq!(words[0] & 0x1ff, 0);
    assert_eq!(words[0] >> 9 & 0x1ff, 7);
    assert_eq!(unpack(&words, 9, 5000), None);
}

#[test]
fn palettes_and_longs_are_read_back() {
    let mut out = vec![3];
    assert!(palette::write_ids(&mut out, &vec![3, 300, 70_000]));
    write_longs(&mut out, &vec![u64::MAX, 5]);
    let mut r = out.as_slice();
    assert_eq!(palette::read_palette(&mut r).unwrap(), [3, 300, 70_000]);
    assert_eq!(read_longs(&mut r).unwrap(), [u64::MAX, 5]);
    assert!(r.is_empty());
    assert!(read_longs(&mut r).is_err());
    assert!(!palette::write_ids(&mut Vec::new(), &vec![0x8000_0000]));
}

#[test]
fn raw_tags_are_taken_as_they_stand() {
    let tag = [10, 1, 0, 1, b'a', 9, 0, 44];
    let mut r = tag.as_slice();
    assert_eq!(get_raw_nbt(&mut r, false).unwrap(), &tag[..7]);
    assert_eq!(r, [44]);
    let mut r: &[u8] = &[10, 1, 0, 1];
    assert!(get_raw_nbt(&mut r, false).is_err());
}

#[test]
fn block_entities_are_added_once() {
    let world = world(version::V_1_21_4);
    let payload = chunk_1_21_4(STONE);
    let at = pack_block_position(3 * 16 + 2, 70, -4 * 16 + 1);
    let same = append_chunk_block_entities(&payload, &[], &world.target()).unwrap();
    assert_eq!(same, payload);

    let once = append_chunk_block_entities(&payload, &[(at, CHEST)], &world.target()).unwrap();
    let twice = append_chunk_block_entities(&payload, &[(at, CHEST), (at, 3)], &world.target()).unwrap();
    assert_eq!(once, twice);
    let tail = chunk_tail(&once, &world.target()).unwrap();
    let mut r = tail.as_slice();
    assert_eq!(wire::get_var_int(&mut r).unwrap(), 1);
    assert_eq!(wire::get_u8(&mut r).unwrap(), 0x21);
    assert_eq!(wire::get_u16(&mut r).unwrap(), 70);
    assert_eq!(wire::get_var_int(&mut r).unwrap(), CHEST);
    assert_eq!(append_chunk_block_entities(&once, &[(at, 3)], &world.target()).unwrap(), once);

    let elsewhere = pack_block_position(0, 70, 0);
    assert!(append_chunk_block_entities(&payload, &[(elsewhere, CHEST)], &world.target()).is_none());
}

// --- chunks of older releases -----------------------------------------------------------

const LAYOUT: u32 = version::V_1_18;
/// The overworld the server has: y -64 to 319, twenty four sections.
const WORLD_BOTTOM: i32 = -64;
/// Section four of those is the client's own bottom one.
const SOLID: usize = 4;

/// Every section a single value palette, the one at `SOLID` solid stone and the
/// rest air, each with its own single value biome so the window can be checked.
fn blob(count: usize, stone: i32) -> Vec<u8> {
    let mut blob = Vec::new();
    for index in 0..count {
        let solid = index == SOLID;
        wire::write_u16(&mut blob, if solid { 4096 } else { 0 });
        blob.push(0);
        wire::write_var_int(&mut blob, if solid { stone } else { 0 });
        wire::write_var_int(&mut blob, 0);
        blob.push(0);
        wire::write_var_int(&mut blob, index as i32);
        wire::write_var_int(&mut blob, 0);
    }
    blob
}

fn direct_blob(count: usize, states: &[u32]) -> Vec<u8> {
    let max_state = states.iter().copied().max().expect("states");
    let bits = u8::try_from(u32::BITS - max_state.leading_zeros()).unwrap();
    assert!(bits > MAX_INDIRECT_BLOCK_BITS);
    let entries_per_long = per_long(bits);
    let mut blob = Vec::new();
    for _ in 0..count {
        wire::write_u16(&mut blob, 4096);
        blob.push(bits);
        let mut packed = vec![0u64; BLOCKS_PER_SECTION.div_ceil(entries_per_long)];
        for index in 0..BLOCKS_PER_SECTION {
            let value = u64::from(states[index % states.len()]);
            packed[index / entries_per_long] |= value << (usize::from(bits) * (index % entries_per_long));
        }
        write_longs(&mut blob, &packed);
        blob.push(0);
        wire::write_var_int(&mut blob, 0);
        wire::write_var_int(&mut blob, 0);
    }
    blob
}

struct Light {
    sky: u64,
    block: u64,
    empty_sky: u64,
    empty_block: u64,
    sky_arrays: Vec<u8>,
    block_arrays: Vec<u8>,
}

fn bits(set: &[u32]) -> u64 {
    set.iter().map(|bit| 1u64 << bit).sum()
}

fn no_light() -> Light {
    Light { sky: 0, block: 0, empty_sky: 0, empty_block: 0, sky_arrays: Vec::new(), block_arrays: Vec::new() }
}

fn light_data() -> Light {
    Light {
        sky: bits(&[3, 4, 21, 22]),
        block: bits(&[4, 22]),
        empty_sky: bits(&[3, 20]),
        empty_block: bits(&[21, 22]),
        sky_arrays: vec![0x33, 0x44, 0x55, 0x66],
        block_arrays: vec![0x77, 0x88],
    }
}

fn light_data_for_1_16() -> Light {
    Light {
        sky: bits(&[0, 17]),
        block: bits(&[0]),
        empty_sky: bits(&[16]),
        empty_block: bits(&[17]),
        sky_arrays: vec![0x44, 0x55],
        block_arrays: vec![0x77],
    }
}

fn write_light(out: &mut Vec<u8>, light: &Light) {
    wire::write_bool(out, true);
    for mask in [light.sky, light.block, light.empty_sky, light.empty_block] {
        write_longs(out, &vec![mask]);
    }
    for arrays in [&light.sky_arrays, &light.block_arrays] {
        wire::write_len(out, arrays.len());
        for value in arrays {
            wire::write_str(out, &[*value; 2048]);
        }
    }
}

/// A chunk packet in the layout of 1.18.
fn chunk_packet(data: &[u8], block_entity: i32, light: &Light) -> Vec<u8> {
    let mut payload = Vec::new();
    wire::write_i32(&mut payload, 3);
    wire::write_i32(&mut payload, -2);
    write_nbt(&mut payload, &NbtCompound::new().to_tag(), true);
    wire::write_len(&mut payload, data.len());
    payload.extend_from_slice(data);
    wire::write_var_int(&mut payload, 1);
    payload.push(0x21);
    wire::write_u16(&mut payload, 70);
    wire::write_var_int(&mut payload, block_entity);
    let mut chest = NbtCompound::new();
    chest.put_string("CustomName".as_bytes(), "crate".as_bytes());
    write_nbt(&mut payload, &chest.to_tag(), true);
    write_light(&mut payload, light);
    payload
}

/// The packet with numbers of 1.18.
fn after_id_pass(data: &[u8]) -> Vec<u8> {
    chunk_packet(data, world(LAYOUT).ids.blockentities.map_id(CHEST).unwrap(), &no_light())
}

fn states_18_to_17() -> IdMapping {
    swapped(1010, 6)
}

fn states_17_to_16() -> IdMapping {
    swapped(1010, 7)
}

fn to_1_17(data: &[u8], bottom: i32) -> Vec<u8> {
    let world = world(LAYOUT);
    to_v1_17(
        &after_id_pass(data),
        bottom,
        Some(&states_18_to_17()),
        &world.ids.blockentities,
        &world.cat.block_entities,
        version::V_1_17_1,
    )
    .expect("converted")
    .chunk
}

fn first_block_bits(payload: &[u8], v1_16: bool) -> u8 {
    let mut read = payload;
    wire::get_i32(&mut read).unwrap();
    wire::get_i32(&mut read).unwrap();
    if v1_16 {
        assert!(wire::get_bool(&mut read).unwrap());
        wire::get_var_int(&mut read).unwrap();
    } else {
        read_longs(&mut read).unwrap();
    }
    get_raw_nbt(&mut read, true).unwrap();
    for _ in 0..wire::get_var_int(&mut read).unwrap() {
        wire::get_var_int(&mut read).unwrap();
    }
    wire::get_var_int(&mut read).unwrap();
    wire::get_u16(&mut read).unwrap();
    wire::get_u8(&mut read).unwrap()
}

#[test]
fn a_1_18_chunk_becomes_a_1_17_one() {
    let stone = 6;
    let out = to_1_17(&blob(24, stone), WORLD_BOTTOM);

    let mut read: &[u8] = &out;
    assert_eq!(wire::get_i32(&mut read).unwrap(), 3);
    assert_eq!(wire::get_i32(&mut read).unwrap(), -2);
    assert_eq!(read_longs(&mut read).unwrap(), vec![1], "section 0 only");
    get_raw_nbt(&mut read, true).unwrap();

    let biome_count = wire::get_var_int(&mut read).unwrap();
    assert_eq!(biome_count, BIOMES_PER_COLUMN as i32);
    let biomes: Vec<i32> = (0..biome_count).map(|_| wire::get_var_int(&mut read).unwrap()).collect();
    // The window is the server's sections four to nineteen, y 0 to 255.
    assert_eq!(biomes[0], SOLID as i32);
    assert_eq!(biomes[BIOMES_PER_SECTION], SOLID as i32 + 1);
    assert_eq!(biomes[BIOMES_PER_COLUMN - 1], 19);

    let blob_len = wire::get_var_int(&mut read).unwrap() as usize;
    let (mut sections, mut rest) = read.split_at(blob_len);
    assert_eq!(wire::get_u16(&mut sections).unwrap(), 4096);
    assert_eq!(wire::get_u8(&mut sections).unwrap(), LEGACY_BLOCK_BITS, "1.17 has no single value palette");
    assert_eq!(wire::get_var_int(&mut sections).unwrap(), 1);
    assert_eq!(wire::get_var_int(&mut sections).unwrap(), states_18_to_17().map_id(stone).unwrap());
    assert_eq!(read_longs(&mut sections).unwrap().len(), 256);
    assert!(sections.is_empty(), "only the one non empty section");

    assert_eq!(wire::get_var_int(&mut rest).unwrap(), 1);
    let entity = read_named_compound(&mut rest).unwrap();
    assert_eq!(entity.get_string("id".as_bytes()).unwrap(), "minecraft:chest".as_bytes());
    assert_eq!(entity.get_string("CustomName".as_bytes()).unwrap(), "crate".as_bytes());
    assert_eq!(entity.get_int("x".as_bytes()), Some(3 * 16 + 2));
    assert_eq!(entity.get_int("y".as_bytes()), Some(70));
    assert_eq!(entity.get_int("z".as_bytes()), Some(-2 * 16 + 1));
    assert!(rest.is_empty(), "the light rides in its own packet");
}

#[test]
fn direct_block_palettes_are_repacked_for_1_17_and_1_16() {
    let states: Vec<u32> = (0..300).collect();
    let v1_17 = to_1_17(&direct_blob(24, &states), WORLD_BOTTOM);
    assert!(first_block_bits(&v1_17, false) > MAX_INDIRECT_BLOCK_BITS, "more than 256 states use a direct palette");
    let v1_16 = to_v1_16(&v1_17, Some(&states_17_to_16())).expect("direct palette converts to 1.16.2");
    assert!(first_block_bits(&v1_16, true) > MAX_INDIRECT_BLOCK_BITS, "the 1.16 output keeps a direct palette");
}

#[test]
fn the_1_16_mask_replaces_the_bit_set() {
    let v1_17 = to_1_17(&blob(24, 6), WORLD_BOTTOM);
    let out = to_v1_16(&v1_17, Some(&states_17_to_16())).expect("converted");

    let mut read: &[u8] = &out;
    assert_eq!(wire::get_i32(&mut read).unwrap(), 3);
    assert_eq!(wire::get_i32(&mut read).unwrap(), -2);
    assert!(wire::get_bool(&mut read).unwrap(), "full chunk");
    assert_eq!(wire::get_var_int(&mut read).unwrap(), 1);

    let mut expected: &[u8] = &v1_17[8..];
    read_longs(&mut expected).unwrap();
    assert_eq!(get_raw_nbt(&mut read, true).unwrap(), get_raw_nbt(&mut expected, true).unwrap());
}

#[test]
fn a_short_world_pads_the_biome_column() {
    let out = to_1_17(&blob(16, 6), 0);
    let mut read: &[u8] = &out;
    wire::get_i32(&mut read).unwrap();
    wire::get_i32(&mut read).unwrap();
    read_longs(&mut read).unwrap();
    get_raw_nbt(&mut read, true).unwrap();
    assert_eq!(wire::get_var_int(&mut read).unwrap(), BIOMES_PER_COLUMN as i32);
}

#[test]
fn a_payload_that_is_not_whole_is_dropped() {
    let payload = after_id_pass(&blob(24, 6));
    let world = world(LAYOUT);
    let convert = |payload: &[u8]| {
        to_v1_17(
            payload,
            WORLD_BOTTOM,
            Some(&states_18_to_17()),
            &world.ids.blockentities,
            &world.cat.block_entities,
            version::V_1_17_1,
        )
    };
    assert!(convert(&payload).is_some());
    for cut in [9, 12, 40, payload.len() - 1] {
        assert!(convert(&payload[..cut]).is_none(), "cut at {cut}");
    }
    let mut trailing = payload.clone();
    trailing.push(0xff);
    assert!(
        convert(&trailing).is_none(),
        "a byte left over means this is not the layout it was taken for"
    );
}

/// The packet of the light, in the layout of 1.17 or of 1.16.
fn light_update(light: &Light, v1_16: bool) -> Vec<u8> {
    let mut out = Vec::new();
    wire::write_var_int(&mut out, 3);
    wire::write_var_int(&mut out, -2);
    if !v1_16 {
        write_light(&mut out, light);
        return out;
    }
    wire::write_bool(&mut out, true);
    for mask in [light.sky, light.block, light.empty_sky, light.empty_block] {
        wire::write_var_int(&mut out, mask as i32);
    }
    for arrays in [&light.sky_arrays, &light.block_arrays] {
        for value in arrays {
            wire::write_str(&mut out, &[*value; 2048]);
        }
    }
    out
}

#[test]
fn the_pipeline_reframes_a_chunk_for_1_17_1_and_1_16_4() {
    let world = world(LAYOUT);
    for (version, bit_set_mask) in
        [(version::V_1_17_1, true), (version::V_1_16_4, false), (version::V_1_16_2, false)]
    {
        // The server's numbers first become those of 1.18.
        let native = chunk_packet(&blob(24, STONE), CHEST, &light_data());
        let entity = world.ids.blockentities.map_id(CHEST).unwrap();
        let tail = chunk_tail(&chunk_packet(&[], entity, &light_data()), &world.target());
        let payload = remap_chunk_payload(&native, tail.as_deref(), &world.target()).unwrap();

        let output = to_v1_17(
            &payload,
            WORLD_BOTTOM,
            Some(&states_18_to_17()),
            &world.ids.blockentities,
            &world.cat.block_entities,
            version,
        )
        .unwrap();
        let light = if bit_set_mask { light_data() } else { light_data_for_1_16() };
        assert_eq!(
            output.light_update,
            light_update(&light, !bit_set_mask),
            "{version} light masks and arrays match its wire layout"
        );
        let chunk =
            if bit_set_mask { output.chunk } else { to_v1_16(&output.chunk, Some(&states_17_to_16())).unwrap() };

        let mut read: &[u8] = &chunk;
        assert_eq!(wire::get_i32(&mut read).unwrap(), 3);
        assert_eq!(wire::get_i32(&mut read).unwrap(), -2);
        if bit_set_mask {
            assert_eq!(read_longs(&mut read).unwrap(), vec![1], "{version}");
        } else {
            assert!(wire::get_bool(&mut read).unwrap(), "{version} full chunk");
            assert_eq!(wire::get_var_int(&mut read).unwrap(), 1, "{version}");
        }
        get_raw_nbt(&mut read, true).unwrap();
        assert_eq!(wire::get_var_int(&mut read).unwrap(), BIOMES_PER_COLUMN as i32, "{version}");
        for _ in 0..BIOMES_PER_COLUMN {
            wire::get_var_int(&mut read).unwrap();
        }

        let blob_len = wire::get_var_int(&mut read).unwrap() as usize;
        let (mut sections, mut rest) = read.split_at(blob_len);
        assert_eq!(wire::get_u16(&mut sections).unwrap(), 4096, "{version}");
        assert_eq!(wire::get_u8(&mut sections).unwrap(), LEGACY_BLOCK_BITS, "{version}");
        assert_eq!(wire::get_var_int(&mut sections).unwrap(), 1, "{version}");
        let mut expected = states_18_to_17().map_id(world.state(STONE)).unwrap();
        if !bit_set_mask {
            expected = states_17_to_16().map_id(expected).unwrap();
        }
        assert_eq!(wire::get_var_int(&mut sections).unwrap(), expected, "{version}: this client's own stone");

        assert_eq!(wire::get_var_int(&mut rest).unwrap(), 1, "{version}");
        let entity = read_named_compound(&mut rest).unwrap();
        assert_eq!(entity.get_string("id".as_bytes()).unwrap(), "minecraft:chest".as_bytes(), "{version}");
        assert!(rest.is_empty(), "{version}");
    }
}

#[test]
fn written_containers_are_read_back() {
    let mut values: Vec<u32> = (0..BLOCKS_PER_SECTION as u32).map(|n| n % 20).collect();
    values[7] = 900;
    let container = BlockContainer { values, direct_bits: None };
    let mut out = Vec::new();
    assert!(container.write(&mut out, None, None));
    let mut r = out.as_slice();
    let back = BlockContainer::read(&mut r).unwrap();
    assert!(r.is_empty());
    assert_eq!(back.values, container.values);
    assert!(BlockContainer::read(&mut r).is_err());
}

#[test]
fn the_widest_number_decides_the_global_palette() {
    assert_eq!(global_palette_bits(None), None);
    assert_eq!(global_palette_bits(Some(&swapped(1010, 6))), Some(10));
    assert_eq!(chunk_legacy::block_entity_name(9, &table(3, Some), &Vec::new()), None);
}

#[test]
fn light_masks_go_on_in_dark() {
    assert!(light_mask_contains(&vec![0, 1], 64));
    assert!(!light_mask_contains(&vec![0, 1], 65));
    assert!(!light_mask_contains(&vec![0, 1], 1000));
}

#[test]
fn containers_of_another_size_are_not_written() {
    for count in [0usize, 1, 4095, 4097] {
        let container = BlockContainer { values: vec![3; count], direct_bits: None };
        assert!(!container.write(&mut Vec::new(), None, None));
    }
}

#[test]
fn light_is_cut_to_eighteen_sections() {
    let mask = vec![bits(&[1, 3, 4, 20, 22])];
    let arrays: Vec<Vec<u8>> = (0..5).map(|n| vec![n; 2048]).collect();
    let (cut, kept) = cut_light_arrays(&mask, &arrays, 3).unwrap();
    assert_eq!(cut, (1 << 0) | (1 << 1) | (1 << 17));
    assert_eq!(kept, arrays[1..4]);
    // An array that no section of the mask has leaves nothing to send.
    assert!(cut_light_arrays(&mask, &arrays[..4].to_vec(), 3).is_none());
    assert!(cut_light_arrays(&vec![0], &arrays, 3).is_none());
    assert_eq!(cut_light_arrays(&vec![0], &Vec::new(), 3), Some((0, Vec::new())));
}
