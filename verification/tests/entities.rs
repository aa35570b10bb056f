use java_multiversion::catalog::{Catalog, DataComponent, Layout as ComponentLayout};
use java_multiversion::client_item::ClientboundItemT;
use java_multiversion::connection::UserConnection;
use java_multiversion::entity::{
    read_entries, rewrite_entries, rewrite_value, set_entity_data, spawned_type, update_attributes, write_entries,
    EntityDataEntry, EntityKinds, EntityTables, MetaValue, TrackedIndex, BEE_ANGER_END_TIME_INDEX_26_3, TERMINATOR,
    WOLF_ANGER_END_TIME_INDEX_26_3,
};
use java_multiversion::entity_data_types::{read_table, table_from, MetaKind, MetaTypes};
use java_multiversion::item_backup::{restore_full_item, ComponentHash};
use java_multiversion::mapping::{ComposedMappings, IdMapping};
use java_multiversion::particle::{Particle, ParticleData};
use java_multiversion::shape::{pair, Shape};
use java_multiversion::target::{Target, Texts};
use java_multiversion::types::{write_item, Item, ItemComponent};
use java_multiversion::version;
use java_multiversion::wire;
use java_multiversion::wire::TranslateError;

// --- serializers --------------------------------------------------------------------------

const NAMES_1_9: [&str; 13] = [
    "byte",
    "integer",
    "float",
    "string",
    "text_component",
    "item_stack",
    "boolean",
    "rotation",
    "block_pos",
    "optional_block_pos",
    "facing",
    "optional_uuid",
    "optional_block_state",
];
const NAMES_1_13: [&str; 16] = [
    "byte",
    "integer",
    "float",
    "string",
    "text_component",
    "optional_text_component",
    "item_stack",
    "boolean",
    "rotation",
    "block_pos",
    "optional_block_pos",
    "facing",
    "optional_uuid",
    "optional_block_state",
    "compound_tag",
    "particle",
];
const NAMES_1_14: [&str; 3] = ["villager_data", "optional_int", "entity_pose"];
const NAMES_1_20_3: [&str; 17] = [
    "byte",
    "integer",
    "long",
    "float",
    "string",
    "text_component",
    "optional_text_component",
    "item_stack",
    "boolean",
    "rotation",
    "block_pos",
    "optional_block_pos",
    "facing",
    "optional_uuid",
    "block_state",
    "optional_block_state",
    "compound_tag",
];
const NAMES_26_3: [&str; 44] = [
    "byte",
    "int",
    "long",
    "float",
    "string",
    "component",
    "optional_component",
    "item_stack",
    "boolean",
    "rotations",
    "block_pos",
    "optional_block_pos",
    "direction",
    "optional_living_entity_reference",
    "block_state",
    "optional_block_state",
    "particle",
    "particles",
    "villager_data",
    "optional_unsigned_int",
    "pose",
    "cat_variant",
    "cat_sound_variant",
    "cow_variant",
    "cow_sound_variant",
    "wolf_variant",
    "wolf_sound_variant",
    "frog_variant",
    "pig_variant",
    "pig_sound_variant",
    "chicken_variant",
    "chicken_sound_variant",
    "zombie_nautilus_variant",
    "optional_global_pos",
    "painting_variant",
    "sniffer_state",
    "armadillo_state",
    "copper_golem_state",
    "weathering_copper_state",
    "vector3",
    "quaternion",
    "resolvable_profile",
    "humanoid_arm",
    "dye_color",
];

fn numbered(names: &[&str], more: &[(&str, i32)]) -> String {
    let mut rows: Vec<String> = names.iter().enumerate().map(|(id, name)| format!("\"{name}\": {id}")).collect();
    rows.extend(more.iter().map(|(name, id)| format!("\"{name}\": {id}")));
    format!("{{{}}}", rows.join(", "))
}

fn types() -> MetaTypes {
    let mut names_1_14 = NAMES_1_13.to_vec();
    names_1_14.extend(NAMES_1_14);
    let mut names_1_20_3 = NAMES_1_20_3.to_vec();
    names_1_20_3.extend(["particle", "villager_data", "optional_int", "entity_pose", "cat_variant"]);
    let mut names_1_20_5 = NAMES_1_20_3.to_vec();
    names_1_20_5.extend(["particle", "particle_list", "villager_data", "optional_int", "entity_pose", "cat_variant"]);
    // One number stood for both forms of a block state.
    let shared = [("block_state", 13)];
    let files = [
        (version::V_1_9, numbered(&NAMES_1_9, &[])),
        (version::V_1_12, numbered(&NAMES_1_9, &[("compound_tag", 13)])),
        (version::V_1_13, numbered(&NAMES_1_13, &[])),
        (version::V_1_14, numbered(&names_1_14, &shared)),
        (version::V_1_16_2, numbered(&names_1_14, &shared)),
        (version::V_1_18, numbered(&names_1_14, &shared)),
        (version::V_1_20_3, numbered(&names_1_20_3, &[])),
        (version::V_1_20_5, numbered(&names_1_20_5, &[])),
        (version::V_1_21_9, numbered(&names_1_20_5, &[])),
        (version::V_26_1, numbered(&NAMES_26_3[..43], &[])),
        (version::V_26_3, numbered(&NAMES_26_3, &[])),
    ];
    MetaTypes {
        tables: files.iter().map(|(version, json)| read_table(*version, json.as_bytes()).unwrap()).collect(),
    }
}

fn named(types: &MetaTypes, name: &str, version: u32) -> Option<i32> {
    types.meta_data_type_id_for_name(name.as_bytes(), version)
}

#[test]
fn ids_follow_the_version() {
    let types = types();
    assert_eq!(types.meta_data_type_id_for_version(5, version::V_26_3), Some(5));
    assert_eq!(types.meta_data_type_id_for_version(5, version::V_1_20_3), Some(5));
    assert_eq!(types.meta_data_type_id_for_version(5, version::V_1_16_2), Some(4));
    assert_eq!(types.meta_data_type_id_for_version(20, version::V_1_20_5), Some(21));
    assert_eq!(types.meta_data_type_id_for_version(20, version::V_1_16_2), Some(18));
    // A version with no file of its own reads the newest older one.
    assert_eq!(
        types.meta_data_type_id_for_version(20, version::V_1_16_4),
        types.meta_data_type_id_for_version(20, version::V_1_16_2)
    );
    assert_eq!(
        types.meta_data_type_id_for_version(20, version::V_1_18_2),
        types.meta_data_type_id_for_version(20, version::V_1_18)
    );
}

#[test]
fn legacy_serializer_ids_are_defined_for_1_15_and_1_16() {
    let types = types();
    for version in [version::V_1_15_2, version::V_1_16, version::V_1_16_1] {
        for (name, id) in [
            ("byte", 0),
            ("int", 1),
            ("float", 2),
            ("component", 4),
            ("item_stack", 6),
            ("particle", 15),
            ("pose", 18),
        ] {
            assert_eq!(named(&types, name, version), Some(id), "{version} {name}");
        }
    }
}

#[test]
fn serializer_ids_fail_closed_before_the_oldest_checked_in_table() {
    let types = types();
    assert_eq!(types.meta_data_type_id_for_version(1, version::V_1_8), None);
    assert_eq!(types.canonical_meta_data_type_id_for_version(1, version::V_1_8), None);
}

#[test]
fn serializer_ids_follow_the_pre_1_15_boundaries() {
    let types = types();
    assert_eq!(named(&types, "item_stack", version::V_1_9), Some(5));
    assert_eq!(named(&types, "item_stack", version::V_1_12), Some(5));
    assert_eq!(named(&types, "item_stack", version::V_1_13), Some(6));
    assert_eq!(named(&types, "item_stack", version::V_1_14), Some(6));
    assert_eq!(named(&types, "villager_data", version::V_1_13_2), None);
    assert_eq!(named(&types, "villager_data", version::V_1_14), Some(16));
    assert_eq!(
        types.canonical_meta_data_type_id_for_version(13, version::V_1_14),
        Some(15),
        "the shared old block-state serializer is the optional form"
    );
}

#[test]
fn a_type_the_version_lacks_has_no_id() {
    let types = types();
    assert_eq!(types.meta_data_type_id_for_version(17, version::V_1_20_3), None);
    assert_eq!(types.meta_data_type_id_for_version(17, version::V_1_20_5), Some(18));
    assert_eq!(types.meta_data_type_id_for_version(43, version::V_26_2), None);
    assert_eq!(types.meta_data_type_id_for_version(43, version::V_26_3), Some(43));
    assert_eq!(types.meta_data_type_id_for_version(22, version::V_1_21_11), None);
    assert_eq!(types.meta_data_type_id_for_version(22, version::V_26_1), Some(22));
}

#[test]
fn serializer_names_resolve_to_the_target_version() {
    let types = types();
    let current_int = named(&types, "int", version::V_26_3).unwrap();
    let current_long = named(&types, "long", version::V_26_3).unwrap();
    assert_eq!(
        named(&types, "int", version::V_1_21_9),
        types.meta_data_type_id_for_version(current_int, version::V_1_21_9)
    );
    assert_eq!(
        named(&types, "long", version::V_1_21_9),
        types.meta_data_type_id_for_version(current_long, version::V_1_21_9)
    );
    assert_eq!(named(&types, "no_such_serializer", version::V_1_21_9), None);
}

#[test]
fn legacy_wire_ids_reverse_to_canonical_types_per_version() {
    let types = types();
    for version in [version::V_1_15_2, version::V_1_16, version::V_1_16_1, version::V_1_16_2] {
        assert_eq!(types.canonical_meta_data_type_id_for_version(7, version), Some(8));
        // On the wire 8 is a rotation of 12 bytes, while the server's 8 is a bool.
        assert_eq!(types.canonical_meta_data_type_id_for_version(8, version), Some(9));
        assert_eq!(types.meta_kind(9), Some(MetaKind::Rotations));
        assert_eq!(types.meta_kind(8), Some(MetaKind::Bool));
        assert_eq!(types.canonical_meta_data_type_id_for_version(13, version), Some(15));
    }
    assert_eq!(types.canonical_meta_data_type_id_for_version(8, version::V_1_14_4), Some(9));
    assert_eq!(types.canonical_meta_data_type_id_for_version(-1, version::V_1_16), None);
}

#[test]
fn kinds_come_from_the_26_3_names() {
    let types = types();
    assert_eq!(types.meta_kind(0), Some(MetaKind::Byte));
    assert_eq!(types.meta_kind(7), Some(MetaKind::Item));
    assert_eq!(types.meta_kind(14), Some(MetaKind::BlockState));
    assert_eq!(types.meta_kind(15), Some(MetaKind::OptionalBlockState));
    assert_eq!(types.meta_kind(16), Some(MetaKind::Particle));
    assert_eq!(types.meta_kind(17), Some(MetaKind::Particles));
    assert_eq!(types.meta_kind(21), Some(MetaKind::VarInt));
    assert_eq!(types.meta_kind(34), Some(MetaKind::PaintingVariant));
    // optional_global_pos and resolvable_profile have no reader.
    assert_eq!(types.meta_kind(33), None);
    assert_eq!(types.meta_kind(41), None);
    assert_eq!(types.meta_kind(99), None);
}

#[test]
fn a_table_that_is_no_object_of_numbers_is_not_read() {
    assert!(read_table(version::V_1_9, "[1, 2]".as_bytes()).is_none());
    assert!(read_table(version::V_1_9, "{\"byte\": \"zero\"}".as_bytes()).is_none());
    let table = read_table(version::V_1_9, "{\"float\": 2, \"byte\": 0}".as_bytes()).unwrap();
    assert_eq!(table.version, version::V_1_9);
    assert_eq!(table.types.len(), 2);
    assert_eq!((table.types[0].name.as_slice(), table.types[0].id), ("byte".as_bytes(), 0));
    assert_eq!((table.types[1].name.as_slice(), table.types[1].id), ("float".as_bytes(), 2));
}

// --- metadata -----------------------------------------------------------------------------

const AREA_EFFECT_CLOUD: u16 = 3;
const BEE: u16 = 10;
const CAMEL: u16 = 17;
const CAMEL_HUSK: u16 = 18;
const CREAKING: u16 = 30;
const CUSHION: u16 = 31;
const FALLING_BLOCK: u16 = 45;
const GLOW_SQUID: u16 = 55;
const ITEM_FRAME: u16 = 65;
const NAUTILUS: u16 = 85;
const PIG: u16 = 95;
const SQUID: u16 = 121;
const WOLF: u16 = 148;
const ZOMBIE_NAUTILUS: u16 = 153;

const DIAMOND: i32 = 900;
const ATTACK_ANIMATION: i32 = 1;
const ENTITY_EFFECT: i32 = 1;
const GEYSER_BASE: i32 = 2;
const ARMOR: u32 = 0;
const MAX_ABSORPTION: u32 = 1;
const PLAY_ID: i32 = 7;

fn table(size: u32, map: impl Fn(u32) -> Option<u32>) -> IdMapping {
    IdMapping { slots: (0..size).map(map).collect() }
}

fn shifted(size: u32) -> IdMapping {
    table(size, |id| Some(id + 1))
}

struct World {
    version: u32,
    ids: ComposedMappings,
    cat: Catalog,
    texts: Texts,
    tables: EntityTables,
}

impl World {
    fn target(&self) -> Target<'_> {
        Target { version: self.version, ids: &self.ids, cat: &self.cat, texts: &self.texts }
    }
}

/// Where a client has the entries of each kind of entity.
fn indices(version: u32) -> Vec<TrackedIndex> {
    let mut rows = Vec::new();
    let mut row = |entity_type: u16, index: u8, shown: u8| rows.push(TrackedIndex { entity_type, index, shown });
    // The frozen ticks, at 7, came with 1.17.
    let base = |index: u8| if index > 7 && version < version::V_1_17 { index - 1 } else { index };
    for index in [0u8, 9, 10, 16, 19] {
        row(PIG, index, base(index));
    }
    row(CREAKING, 0, 0);
    if version < version::V_1_20_5 {
        row(AREA_EFFECT_CLOUD, 8, 8);
        row(AREA_EFFECT_CLOUD, 9, 10);
        row(AREA_EFFECT_CLOUD, 10, 11);
    } else {
        for index in 8..=10 {
            row(AREA_EFFECT_CLOUD, index, index);
        }
    }
    for index in 0..10 {
        row(FALLING_BLOCK, index, index);
    }
    row(ITEM_FRAME, 9, 8);
    row(WOLF, WOLF_ANGER_END_TIME_INDEX_26_3, 21);
    row(BEE, BEE_ANGER_END_TIME_INDEX_26_3, 18);
    for stand_in in [SQUID, GLOW_SQUID] {
        for index in [9, 17, 18, 19, 20, 21] {
            row(stand_in, index, index);
        }
    }
    for index in 18..=20 {
        row(CAMEL, index, index - 1);
    }
    rows
}

fn world(version: u32) -> World {
    let native = version >= version::V_26_3;
    let by = |distance: u32| if native { 0 } else { distance };
    World {
        version,
        ids: ComposedMappings {
            items: table(2000, |id| Some(id + by(1))),
            blocks: shifted(10),
            block_states: table(10, |id| if id == 9 { None } else { Some(id + by(5)) }),
            entities: shifted(10),
            blockentities: shifted(10),
            enchantments: shifted(10),
            attributes: table(3, |id| {
                if id == MAX_ABSORPTION && version <= version::V_1_20 || id == 2 && version <= version::V_1_20_5 {
                    None
                } else {
                    Some(id + by(4))
                }
            }),
            paintings: table(3, |id| if id == 2 { None } else { Some(id + by(1)) }),
            sounds: shifted(10),
            particles: table(3, |id| {
                if id as i32 == GEYSER_BASE && version < version::V_26_2 { None } else { Some(id + by(2)) }
            }),
            recipe_serializers: shifted(10),
            slot_displays: shifted(10),
            data_component_type: IdMapping {
                slots: vec![Some(by(3)), if version >= version::V_26_2 { Some(1) } else { None }],
            },
            custom_model_data: Vec::new(),
        },
        cat: Catalog {
            components: vec![DataComponent::CustomData, DataComponent::AttackAnimation],
            layouts: vec![
                ComponentLayout { component: 0, since: version::V_1_20_5, shape: Shape::Nbt },
                ComponentLayout {
                    component: ATTACK_ANIMATION,
                    since: version::V_26_2,
                    shape: pair(Shape::VarInt, Shape::VarInt),
                },
            ],
            registries: Vec::new(),
            enchantments: Vec::new(),
            potions: Vec::new(),
            attributes: Vec::new(),
            items: Vec::new(),
            enchantment_names: Vec::new(),
            enchantments_1_20_5: shifted(1),
            block_entities: Vec::new(),
            particles: ["flame", "entity_effect", "geyser_base"].iter().map(|name| name.as_bytes().to_vec()).collect(),
            sounds: Vec::new(),
        },
        texts: Texts { rendered: Vec::new(), parsed: Vec::new() },
        tables: EntityTables {
            types: types(),
            kinds: EntityKinds {
                area_effect_cloud: AREA_EFFECT_CLOUD,
                bee: BEE,
                cushion: CUSHION,
                falling_block: FALLING_BLOCK,
                nautilus: NAUTILUS,
                wolf: WOLF,
                zombie_nautilus: ZOMBIE_NAUTILUS,
            },
            indices: indices(version),
            attribute_names: ["generic.armor", "generic.max_absorption", "generic.luck"]
                .iter()
                .map(|name| name.as_bytes().to_vec())
                .collect(),
        },
    }
}

fn no_hashes() -> Vec<ComponentHash> {
    Vec::new()
}

/// Shared flags, health, an empty effect particle list, the baby flag and the
/// variant, at the indices and serializer ids 26.3 gives a pig.
fn pig_list() -> Vec<u8> {
    let mut out = vec![7u8, 0, 0, 0x08, 9, 3];
    out.extend(health());
    out.extend([10, 17, 0, 16, 8, 1, 19, 28, 2, TERMINATOR]);
    out
}

fn health() -> [u8; 4] {
    20.0f32.to_be_bytes()
}

fn translate_data(payload: &[u8], connection: &mut UserConnection, world: &World) -> Vec<u8> {
    let native = crate::world(version::V_26_3);
    let mut r = payload;
    let out =
        set_entity_data(connection, &mut r, &no_hashes(), &world.tables, &native.target(), &world.target()).unwrap();
    assert!(r.is_empty());
    out
}

fn translate(payload: &[u8], entity_type: u16, layout: u32) -> Vec<u8> {
    let mut connection = UserConnection::new(0, layout);
    connection.entity_tracker.add(PLAY_ID, entity_type);
    translate_data(payload, &mut connection, &world(layout))
}

#[test]
fn a_pig_is_renumbered_for_every_layout() {
    let mut v26_2 = vec![7u8, 0, 0, 0x08, 9, 3];
    v26_2.extend(health());
    v26_2.extend([10, 17, 0, 16, 8, 1, 19, 28, 2, TERMINATOR]);

    let mut v1_21_4 = vec![7u8, 0, 0, 0x08, 9, 3];
    v1_21_4.extend(health());
    v1_21_4.extend([10, 18, 0, 16, 8, 1, TERMINATOR]);

    let mut v1_20_3 = vec![7u8, 0, 0, 0x08, 9, 3];
    v1_20_3.extend(health());
    v1_20_3.extend([16, 8, 1, TERMINATOR]);

    let mut v1_18_2 = vec![7u8, 0, 0, 0x08, 9, 2];
    v1_18_2.extend(health());
    v1_18_2.extend([16, 7, 1, TERMINATOR]);

    let mut v1_16_2 = vec![7u8, 0, 0, 0x08, 8, 2];
    v1_16_2.extend(health());
    v1_16_2.extend([15, 7, 1, TERMINATOR]);

    for (layout, want) in [
        (version::V_26_2, v26_2),
        (version::V_1_21_4, v1_21_4),
        (version::V_1_20_3, v1_20_3),
        (version::V_1_18_2, v1_18_2),
        (version::V_1_16_2, v1_16_2),
    ] {
        assert_eq!(translate(&pig_list(), PIG, layout), want, "{layout}");
    }
}

#[test]
fn an_entry_whose_serializer_is_missing_is_left_out() {
    let out = translate(&pig_list(), PIG, version::V_1_20_3);
    assert!(!out.windows(2).any(|pair| pair == [10, 17]));
}

fn raw_entry(index: u8, serializer: &str, value: Vec<u8>) -> EntityDataEntry {
    EntityDataEntry {
        index,
        serializer: named(&types(), serializer, version::V_26_3).unwrap(),
        value: MetaValue::Raw(value),
    }
}

fn rewrite(server: u16, client: u16, entries: &Vec<EntityDataEntry>, layout: u32) -> Vec<EntityDataEntry> {
    let native = world(version::V_26_3);
    let world = world(layout);
    let mut connection = UserConnection::new(0, layout);
    rewrite_entries(
        server,
        client,
        entries,
        &mut connection,
        0,
        &no_hashes(),
        &world.tables,
        &native.target(),
        &world.target(),
    )
}

#[test]
fn a_cloud_effect_color_is_restored_below_1_20_5() {
    let types = types();
    let cloud = AREA_EFFECT_CLOUD;
    let entries = vec![
        raw_entry(8, "float", 3.0f32.to_be_bytes().to_vec()),
        raw_entry(9, "boolean", vec![0]),
        EntityDataEntry {
            index: 10,
            serializer: named(&types, "particle", version::V_26_3).unwrap(),
            value: MetaValue::Particle(Particle { id: ENTITY_EFFECT, data: ParticleData::Color(0x1122_3344) }),
        },
    ];
    let before_1_20_5 = rewrite(cloud, cloud, &entries, version::V_1_20_3);
    assert_eq!(before_1_20_5.iter().map(|entry| entry.index).collect::<Vec<_>>(), [8, 9, 10]);
    assert_eq!(before_1_20_5[1].serializer, named(&types, "int", version::V_1_20_3).unwrap());
    let MetaValue::Raw(color) = &before_1_20_5[1].value else {
        panic!("legacy cloud color is a varint");
    };
    let mut color_reader = color.as_slice();
    assert_eq!(wire::get_var_int(&mut color_reader).unwrap(), 0x0022_3344);
    assert!(color_reader.is_empty());
    assert_eq!(before_1_20_5[2].serializer, named(&types, "boolean", version::V_1_20_3).unwrap());

    let mapped = world(version::V_1_20_5).ids.particles.map_id(ENTITY_EFFECT).unwrap();
    let at_1_20_5 = rewrite(cloud, cloud, &entries, version::V_1_20_5);
    assert_eq!(at_1_20_5[1].index, 9);
    assert_eq!(at_1_20_5[1].serializer, named(&types, "boolean", version::V_1_20_5).unwrap());
    assert_eq!(at_1_20_5[2].index, 10);
    assert_eq!(at_1_20_5[2].serializer, named(&types, "particle", version::V_1_20_5).unwrap());
    let MetaValue::Raw(particle) = &at_1_20_5[2].value else {
        panic!("particle metadata is emitted as target bytes");
    };
    let mut particle_reader = particle.as_slice();
    assert_eq!(wire::get_var_int(&mut particle_reader).unwrap(), mapped);
    assert_eq!(particle_reader, [0x11, 0x22, 0x33, 0x44]);
}

#[test]
fn an_absent_entity_type_keeps_its_base_fields_only() {
    let mut payload = vec![7u8, 0, 0, 0x08, 9, 3];
    payload.extend(health());
    payload.extend([16, 8, 1, TERMINATOR]);
    assert_eq!(translate(&payload, CREAKING, version::V_1_21), [7, 0, 0, 0x08, TERMINATOR]);
}

#[test]
fn an_untracked_entity_gets_no_entries_at_all() {
    let mut connection = UserConnection::new(0, version::V_1_20_3);
    let out = translate_data(&pig_list(), &mut connection, &world(version::V_1_20_3));
    assert_eq!(out, [7, TERMINATOR]);
}

#[test]
fn the_native_layout_is_left_alone() {
    assert_eq!(translate(&pig_list(), PIG, version::V_26_3), pig_list());
}

fn attributes(ids: &[u32], layout: u32) -> Vec<u8> {
    let world = world(layout);
    let mut out = vec![1u8];
    wire::write_var_int(&mut out, ids.len() as i32);
    for id in ids {
        if layout >= version::V_1_20_5 {
            wire::write_var_int(&mut out, *id as i32);
        } else {
            wire::write_str(&mut out, &world.tables.attribute_names[*id as usize]);
        }
        wire::write_u64(&mut out, 1.0f64.to_bits());
        wire::write_var_int(&mut out, 0);
    }
    out
}

fn translate_attributes(payload: &[u8], layout: u32) -> Vec<u8> {
    let world = world(layout);
    update_attributes(payload, &world.tables.attribute_names, &world.target()).unwrap()
}

#[test]
fn an_attribute_the_client_lacks_is_left_out_and_the_list_recounted() {
    let layout = version::V_1_20_5;
    let ids = world(layout).ids;
    let absent = (0..3).find(|id| ids.attributes.map(*id).is_none()).unwrap();

    let out = translate_attributes(&attributes(&[ARMOR, absent], layout), layout);
    let mut read = &out[1..];
    assert_eq!(wire::get_var_int(&mut read).unwrap(), 1);
    assert_eq!(wire::get_var_int(&mut read).unwrap(), ids.attributes.map_id(ARMOR as i32).unwrap());
    assert_eq!(f64::from_bits(wire::get_u64(&mut read).unwrap()), 1.0);
    assert_eq!(wire::get_var_int(&mut read).unwrap(), 0);
    assert!(read.is_empty());
}

#[test]
fn the_name_form_keeps_its_names_and_drops_max_absorption_on_1_20() {
    let layout = version::V_1_20;
    let out = translate_attributes(&attributes(&[ARMOR, MAX_ABSORPTION], layout), layout);
    let mut read = &out[1..];
    assert_eq!(wire::get_var_int(&mut read).unwrap(), 1);
    assert_eq!(wire::get_str(&mut read).unwrap(), "generic.armor".as_bytes());
}

#[test]
fn a_modifier_is_a_uuid_below_1_21_and_a_name_from_it() {
    for layout in [version::V_1_20_5, version::V_1_21] {
        let mut payload = vec![1u8, 1];
        wire::write_var_int(&mut payload, ARMOR as i32);
        wire::write_u64(&mut payload, 1.0f64.to_bits());
        wire::write_var_int(&mut payload, 1);
        if layout >= version::V_1_21 {
            wire::write_str(&mut payload, "abc".as_bytes());
        } else {
            payload.extend(5u128.to_be_bytes());
        }
        wire::write_u64(&mut payload, 2.0f64.to_bits());
        payload.push(0);

        let out = translate_attributes(&payload, layout);
        assert_eq!(out.len(), payload.len(), "{layout}");
        assert_eq!(out[3..], payload[3..], "{layout}");
    }
}

#[test]
fn attributes_behind_which_something_stands_are_malformed() {
    let layout = version::V_1_20_5;
    let world = world(layout);
    let mut payload = attributes(&[ARMOR], layout);
    payload.push(0);
    payload.push(0);
    assert_eq!(
        update_attributes(&payload, &world.tables.attribute_names, &world.target()),
        Err(TranslateError::TrailingBytes(2))
    );
    payload.truncate(payload.len() - 3);
    assert_eq!(
        update_attributes(&payload, &world.tables.attribute_names, &world.target()),
        Err(TranslateError::Malformed)
    );
}

#[test]
fn a_spawn_teaches_the_tracker_what_the_metadata_belongs_to() {
    let layout = version::V_1_16_2;
    let world = world(layout);
    let mut connection = UserConnection::new(0x656e74, layout);
    let spawn = [PLAY_ID as u8, 0, 0, 0, 0];
    assert_eq!(spawned_type(&spawn, &connection), None);

    // The server's metadata: the health is at index 9 with type 3.
    let mut data = vec![7u8, 0, 0, 0x08, 9, 3];
    data.extend(health());
    data.push(TERMINATOR);
    assert_eq!(translate_data(&data, &mut connection, &world), [7, TERMINATOR]);

    connection.entity_tracker.add(PLAY_ID, PIG);
    assert_eq!(spawned_type(&spawn, &connection), Some(PIG));
    let mut want = vec![7u8, 0, 0, 0x08, 8, 2];
    want.extend(health());
    want.push(TERMINATOR);
    assert_eq!(translate_data(&data, &mut connection, &world), want);
}

#[test]
fn a_particle_the_client_lacks_leaves_the_list_shorter() {
    let native = world(version::V_26_3);
    let world = world(version::V_1_21_4);
    let effect = Particle { id: ENTITY_EFFECT, data: ParticleData::Color(0x1122_3344) };
    let geyser =
        Particle { id: GEYSER_BASE, data: ParticleData::Geyser { water_blocks: 5, impulse: 1.0f32.to_bits() } };
    let mapped = world.ids.particles.map_id(ENTITY_EFFECT).unwrap();
    let mut connection = UserConnection::new(0, world.version);
    let Some(MetaValue::Raw(rewritten)) = rewrite_value(
        &MetaValue::Particles(vec![effect, geyser]),
        &mut connection,
        &no_hashes(),
        &native.target(),
        &world.target(),
    ) else {
        panic!("particle list is emitted as wire bytes");
    };
    assert_eq!(rewritten, [1, u8::try_from(mapped).unwrap(), 0x11, 0x22, 0x33, 0x44]);
}

#[test]
fn block_states_and_paintings_are_renumbered() {
    let native = world(version::V_26_3);
    let world = world(version::V_1_21_4);
    let mut connection = UserConnection::new(0, world.version);
    let mut shown = |value: MetaValue| {
        rewrite_value(&value, &mut connection, &no_hashes(), &native.target(), &world.target())
    };
    assert!(matches!(shown(MetaValue::BlockState(3)), Some(MetaValue::BlockState(8))));
    assert!(matches!(shown(MetaValue::BlockState(9)), Some(MetaValue::BlockState(0))));
    assert!(matches!(shown(MetaValue::OptionalBlockState(0)), Some(MetaValue::OptionalBlockState(0))));
    assert!(matches!(shown(MetaValue::OptionalBlockState(1)), Some(MetaValue::OptionalBlockState(6))));
    assert!(matches!(shown(MetaValue::PaintingVariant(1)), Some(MetaValue::PaintingVariant(2))));
    assert!(shown(MetaValue::PaintingVariant(3)).is_none());
    assert!(shown(MetaValue::PaintingVariant(0)).is_none());
}

fn push_var_long(out: &mut Vec<u8>, value: i64) {
    let mut left = value as u64;
    while left >= 0x80 {
        out.push(left as u8 | 0x80);
        left >>= 7;
    }
    out.push(left as u8);
}

fn anger_payload(entity_id: i32, index: u8, absolute_time: i64) -> Vec<u8> {
    let mut anger = Vec::new();
    push_var_long(&mut anger, absolute_time);
    let mut payload = Vec::new();
    wire::write_var_int(&mut payload, entity_id);
    assert!(write_entries(&mut payload, &vec![raw_entry(index, "long", anger)]));
    payload
}

#[test]
fn wolf_and_bee_absolute_anger_times_become_relative_target_ticks() {
    let layout = version::V_1_21_9;
    for (entity_id, entity_type, source_index, target_index) in
        [(1, WOLF, WOLF_ANGER_END_TIME_INDEX_26_3, 21u8), (2, BEE, BEE_ANGER_END_TIME_INDEX_26_3, 18u8)]
    {
        let mut connection = UserConnection::new(0x2111_1000, layout);
        connection.entity_tracker.add(entity_id, entity_type);
        connection.game_time = Some(1_000);
        let out = translate_data(&anger_payload(entity_id, source_index, 1_050), &mut connection, &world(layout));

        let mut read = out.as_slice();
        assert_eq!(wire::get_var_int(&mut read).unwrap(), entity_id);
        assert_eq!(read[0], target_index);
        read = &read[1..];
        assert_eq!(wire::get_var_int(&mut read).unwrap(), named(&types(), "int", layout).unwrap());
        assert_eq!(wire::get_var_int(&mut read).unwrap(), 50);
        assert_eq!(read, &[TERMINATOR]);
    }
}

#[test]
fn expired_anger_time_is_clamped_to_zero() {
    let layout = version::V_1_21_9;
    let entity_id = 3;
    let mut connection = UserConnection::new(0x2111_1003, layout);
    connection.entity_tracker.add(entity_id, WOLF);
    connection.game_time = Some(1_000);
    let payload = anger_payload(entity_id, WOLF_ANGER_END_TIME_INDEX_26_3, 900);
    let out = translate_data(&payload, &mut connection, &world(layout));
    let mut read = out.as_slice();
    assert_eq!(wire::get_var_int(&mut read).unwrap(), entity_id);
    assert_eq!(read[0], 21);
    read = &read[1..];
    assert_eq!(wire::get_var_int(&mut read).unwrap(), named(&types(), "int", layout).unwrap());
    assert_eq!(wire::get_var_int(&mut read).unwrap(), 0);
    assert_eq!(read, &[TERMINATOR]);
}

#[test]
fn cushion_metadata_above_the_base_entity_fields_is_removed() {
    let entries: Vec<_> = (0..10).map(|index| raw_entry(index, "int", vec![0])).collect();
    let rewritten = rewrite(CUSHION, FALLING_BLOCK, &entries, version::V_26_2);
    assert_eq!(rewritten.iter().map(|entry| entry.index).collect::<Vec<_>>(), (0..8).collect::<Vec<_>>());
}

#[test]
fn item_inside_entity_metadata_uses_the_structured_rewriter() {
    let native = world(version::V_26_3);
    let world = world(version::V_1_21_4);
    let item = Item::Structured {
        count: 1,
        id: DIAMOND,
        added: vec![ItemComponent { id: ATTACK_ANIMATION, data: vec![1, 6] }],
        removed: Vec::new(),
    };
    let hashes = vec![ComponentHash { id: ATTACK_ANIMATION, data: vec![1, 6], hash: 77 }];

    let mut item_payload = Vec::new();
    write_item(&mut item_payload, &item, version::V_26_3, false).unwrap();
    let entry = EntityDataEntry {
        index: 9,
        serializer: named(&types(), "item_stack", version::V_26_3).unwrap(),
        value: MetaValue::Item(item_payload),
    };
    let mut metadata = Vec::new();
    assert!(write_entries(&mut metadata, &vec![entry]));

    // The list is read as the server writes it, and its stack is then put in the
    // form of the older client.
    let mut input = metadata.as_slice();
    let parsed = read_entries(&mut input, &types(), &native.target()).unwrap();
    assert!(input.is_empty());
    let mut connection = UserConnection::new(23, world.version);
    let rewritten = rewrite_entries(
        ITEM_FRAME,
        ITEM_FRAME,
        &parsed,
        &mut connection,
        0,
        &hashes,
        &world.tables,
        &native.target(),
        &world.target(),
    );
    let MetaValue::Item(bytes) = &rewritten[0].value else {
        panic!("item metadata stays an item");
    };
    assert_eq!(rewritten[0].index, 8);
    let mut item_input = bytes.as_slice();
    let returned = ClientboundItemT::new(world.target()).read(&mut item_input).unwrap();
    assert!(item_input.is_empty());
    let Item::Structured { added, .. } = restore_full_item(&connection, returned, &world.target()) else {
        panic!("nested item remains structured");
    };
    assert!(added.iter().any(|component| component.id == ATTACK_ANIMATION && component.data == [1, 6]));
}

fn translate_stand_in(server: u16, client: u16, entries: Vec<EntityDataEntry>) -> Vec<u8> {
    let layout = version::V_1_21_9;
    let mut connection = UserConnection::new(0x2111_2001, layout);
    connection.entity_tracker.add_mapped(77, server, client);
    let mut payload = vec![77];
    assert!(write_entries(&mut payload, &entries));
    translate_data(&payload, &mut connection, &world(layout))
}

#[test]
fn nautilus_metadata_uses_squid_base_fields_and_drops_its_own_fields() {
    let out = translate_stand_in(
        NAUTILUS,
        SQUID,
        vec![
            raw_entry(9, "float", health().to_vec()),
            raw_entry(17, "boolean", vec![1]),
            raw_entry(18, "byte", vec![1]),
            raw_entry(19, "optional_living_entity_reference", vec![0]),
            raw_entry(20, "boolean", vec![1]),
        ],
    );
    let mut want = vec![77, 9, 3];
    want.extend(health());
    want.push(TERMINATOR);
    assert_eq!(out, want);
}

#[test]
fn zombie_nautilus_variant_is_removed_for_the_glow_squid_standin() {
    let out = translate_stand_in(
        ZOMBIE_NAUTILUS,
        GLOW_SQUID,
        vec![
            raw_entry(9, "float", health().to_vec()),
            raw_entry(17, "boolean", vec![1]),
            raw_entry(18, "byte", vec![1]),
            raw_entry(19, "optional_living_entity_reference", vec![0]),
            raw_entry(20, "boolean", vec![1]),
            raw_entry(21, "zombie_nautilus_variant", vec![0]),
        ],
    );
    let mut want = vec![77, 9, 3];
    want.extend(health());
    want.push(TERMINATOR);
    assert_eq!(out, want);
}

#[test]
fn camel_husk_metadata_shifts_onto_the_camel_standin() {
    let mut time = Vec::new();
    push_var_long(&mut time, 33);
    let out = translate_stand_in(
        CAMEL_HUSK,
        CAMEL,
        vec![
            raw_entry(17, "boolean", vec![1]),
            raw_entry(18, "byte", vec![2]),
            raw_entry(19, "boolean", vec![1]),
            raw_entry(20, "long", time),
        ],
    );
    assert_eq!(out, [77, 17, 0, 2, 18, 8, 1, 19, 2, 33, TERMINATOR]);
}

#[test]
fn metadata_that_ends_early_is_malformed() {
    let native = world(version::V_26_3);
    let mut r: &[u8] = &[0, 0];
    assert!(read_entries(&mut r, &types(), &native.target()).is_err());
    let mut r: &[u8] = &[0, 33, 0, TERMINATOR];
    assert!(read_entries(&mut r, &types(), &native.target()).is_err(), "a serializer without a reader");
}

#[test]
fn a_list_with_a_particle_is_not_written() {
    let particle = EntityDataEntry {
        index: 1,
        serializer: 16,
        value: MetaValue::Particle(Particle { id: 0, data: ParticleData::Nothing }),
    };
    assert!(!write_entries(&mut Vec::new(), &vec![particle]));
}

#[test]
fn numbers_lead_back_in_tables_of_any_kind() {
    let table = |version: u32, rows: &[(&str, i32)]| {
        table_from(version, rows.iter().map(|(name, id)| (name.as_bytes().to_vec(), *id)).collect())
    };
    // Two of the server's serializers share a number, and one has a negative one.
    let types = MetaTypes {
        tables: vec![
            table(version::V_1_9, &[("byte", 4), ("int", 9), ("float", -2), ("long", 9)]),
            table(version::V_26_3, &[("byte", 0), ("int", 0), ("long", 1), ("float", 2), ("string", -1)]),
        ],
    };
    for id in -1..4 {
        for version in [version::V_1_9, version::V_26_3] {
            if let Some(wire_id) = types.meta_data_type_id_for_version(id, version) {
                assert!(wire_id >= 0);
                let back = types.canonical_meta_data_type_id_for_version(wire_id, version).unwrap();
                assert_eq!(types.meta_data_type_id_for_version(back, version), Some(wire_id));
            }
        }
    }
    assert_eq!(types.canonical_meta_data_type_id_for_version(9, version::V_1_9), Some(1));
    assert_eq!(types.canonical_meta_data_type_id_for_version(-2, version::V_1_9), None);
}
