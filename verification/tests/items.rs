use crc_fast::{checksum, CrcAlgorithm};
use java_multiversion::catalog::{Catalog, DataComponent, ItemNames, Layout, Registry};
use java_multiversion::chunk_remap::get_raw_nbt;
use java_multiversion::client_item::{
    item_pass, read_client_item, read_native_item_value, read_nested_item_component, rewrite_item,
    rewrite_item_value_with_connection, ClientItemT, ClientboundItemT,
};
use java_multiversion::connection::UserConnection;
use java_multiversion::hash::{crc32c, hash_compound, hash_string, hash_tag};
use java_multiversion::hover::{readable_texts, sanitize_base, HoverEvent, HoverTables, SpokenText, TextNode};
use java_multiversion::item::{
    map_component_id, nested_stacks, to_version, to_version_with_tooltip, StructuredItemRewriter,
};
use java_multiversion::item_backup::{
    backup_clientbound_item, build_backup, read_custom_data, restore_full_item, rewrite_hashed_item, write_custom_data,
    ComponentHash, HashedItem, ItemBackup, ItemBackupCache, CACHE_LIMIT,
};
use java_multiversion::item_component::{
    consume_effects_to_native, holder_id, legacy_custom_model_data, legacy_jukebox_playable_to_native,
    legacy_modifier_uuid, legacy_registry_component_to_native, model_payload, registry_ids_to_native,
};
use java_multiversion::item_nbt::{
    components_to_nbt, enchantment_lore_line, find, legacy_attribute_entry, legacy_attribute_name,
    legacy_block_predicates, legacy_enchantment_name, legacy_potion_name, legacy_skull_owner, native_enchantment,
    nbt_to_components, profile_from_skull_owner, read_profile, var_int_pairs, write_profile, Modifier, Profile,
    Property,
};
use java_multiversion::mapping::{ComposedMappings, IdMapping};
use java_multiversion::nbt;
use java_multiversion::nbt::{NbtCompound, NbtEntry, NbtTag};
use java_multiversion::shape;
use java_multiversion::shape::{array, four, pair, skip_id_set, Shape};
use java_multiversion::target::{Parsing, Rendering, Target, Texts};
use java_multiversion::types::{get_nbt_stack, get_template, write_item, write_template, Item, ItemComponent};
use java_multiversion::version;
use java_multiversion::wire;
use java_multiversion::wire::var_int_bytes;

// --- the server's tables ------------------------------------------------------------------

/// The server's components, in the order of their ids.
const COMPONENTS: [DataComponent; 30] = [
    DataComponent::CustomData,
    DataComponent::Damage,
    DataComponent::Unbreakable,
    DataComponent::CustomName,
    DataComponent::Lore,
    DataComponent::Enchantments,
    DataComponent::CanPlaceOn,
    DataComponent::CanBreak,
    DataComponent::AttributeModifiers,
    DataComponent::CustomModelData,
    DataComponent::TooltipDisplay,
    DataComponent::RepairCost,
    DataComponent::IntangibleProjectile,
    DataComponent::Food,
    DataComponent::Consumable,
    DataComponent::UseRemainder,
    DataComponent::DeathProtection,
    DataComponent::Weapon,
    DataComponent::DyedColor,
    DataComponent::MapId,
    DataComponent::MapDecorations,
    DataComponent::ChargedProjectiles,
    DataComponent::PotionContents,
    DataComponent::Trim,
    DataComponent::EntityData,
    DataComponent::Instrument,
    DataComponent::ProvidesTrimMaterial,
    DataComponent::JukeboxPlayable,
    DataComponent::AttackAnimation,
    DataComponent::InteractAnimation,
];

const RELEASES: [u32; 14] = [
    version::V_26_3,
    version::V_26_2,
    version::V_1_21_11,
    version::V_1_21_9,
    version::V_1_21_7,
    version::V_1_21_5,
    version::V_1_21_4,
    version::V_1_21_2,
    version::V_1_21,
    version::V_1_20_5,
    version::V_1_20_3,
    version::V_1_20,
    version::V_1_19,
    version::V_1_16_2,
];

const STAND_IN: u32 = 31;
const NEW_ITEM: i32 = 72;
const ARROW: i32 = 300;
const PAPER: i32 = 301;
const GLASS_BOTTLE: i32 = 302;
const HONEY_BOTTLE: i32 = 303;
const FILLED_MAP: i32 = 304;
const GOLDEN_APPLE: i32 = 305;
const DIAMOND_SWORD: i32 = 306;
const MARKER: &str = "PJM|26_3_backup";

const SHARPNESS: i32 = 12;
const LUNGE: i32 = 2;
const DENSITY: i32 = 1;

fn native_id(component: DataComponent) -> i32 {
    COMPONENTS.iter().position(|known| *known == component).unwrap() as i32
}

fn table(size: u32, map: impl Fn(u32) -> Option<u32>) -> IdMapping {
    IdMapping { slots: (0..size).map(map).collect() }
}

fn texts(names: &[&str]) -> Vec<Vec<u8>> {
    names.iter().map(|name| name.as_bytes().to_vec()).collect()
}

struct World {
    version: u32,
    ids: ComposedMappings,
    cat: Catalog,
    texts: Texts,
}

impl World {
    fn target(&self) -> Target<'_> {
        Target { version: self.version, ids: &self.ids, cat: &self.cat, texts: &self.texts }
    }

    fn component(&self, component: DataComponent) -> i32 {
        map_component_id(native_id(component), component, &self.target()).unwrap()
    }
}

/// The release that brought a component.
fn first_release(component: DataComponent) -> u32 {
    match component {
        DataComponent::AttackAnimation | DataComponent::InteractAnimation => version::V_26_3,
        DataComponent::TooltipDisplay | DataComponent::ProvidesTrimMaterial | DataComponent::Weapon => {
            version::V_1_21_5
        }
        DataComponent::Consumable | DataComponent::UseRemainder | DataComponent::DeathProtection => version::V_1_21_2,
        _ => version::V_1_20_5,
    }
}

fn mappings(version: u32) -> ComposedMappings {
    let native = version >= version::V_26_3;
    let by = |distance: u32| if native { 0 } else { distance };
    let any = |size: u32| table(size, move |id| Some(id + by(1)));
    ComposedMappings {
        // A new item is shown as an older one.
        items: table(2000, |id| {
            Some(if !native && id as i32 == NEW_ITEM { STAND_IN + 1 } else { id + by(1) })
        }),
        blocks: any(10),
        block_states: any(10),
        entities: any(10),
        blockentities: any(10),
        enchantments: table(40, |id| {
            if !native && version <= version::V_1_20_5 && (id as i32 == LUNGE || id as i32 == DENSITY) {
                None
            } else {
                Some(id + by(2))
            }
        }),
        attributes: any(10),
        paintings: any(10),
        sounds: any(10),
        particles: any(10),
        recipe_serializers: any(10),
        slot_displays: any(10),
        data_component_type: table(COMPONENTS.len() as u32, |id| {
            if version < first_release(COMPONENTS[id as usize]) {
                None
            } else if version >= version::V_26_2 {
                Some(id)
            } else {
                Some(id + 1)
            }
        }),
        custom_model_data: if native { Vec::new() } else { vec![(NEW_ITEM as u32, 865)] },
    }
}

fn registries() -> Vec<Registry> {
    let mut rows = Vec::new();
    for version in RELEASES {
        for (id, names) in [
            ("trim_material", ["quartz", "iron", "redstone"]),
            ("trim_pattern", ["sentry", "coast", "wild"]),
            ("instrument", ["seek_goat_horn", "ponder_goat_horn", "call_goat_horn"]),
            ("jukebox_song", ["blocks", "cat", "chirp"]),
            ("mob_effect", ["haste", "speed", "slowness"]),
            ("block", ["air", "stone", "dirt"]),
        ] {
            let mut names = names.to_vec();
            if version < version::V_26_3 {
                names.insert(0, "older");
            }
            rows.push(Registry { version, id: id.as_bytes().to_vec(), entries: texts(&names) });
        }
    }
    rows
}

fn catalog() -> Catalog {
    let layout = |component: DataComponent, since: u32, shape: Shape| Layout {
        component: native_id(component),
        since,
        shape,
    };
    let mut enchantments: Vec<Vec<u8>> = (0..40).map(|id| format!("filler_{id}").into_bytes()).collect();
    for (id, name) in [
        (0, "breach"),
        (DENSITY, "density"),
        (LUNGE, "lunge"),
        (3, "swift_sneak"),
        (4, "sweeping_edge"),
        (SHARPNESS, "sharpness"),
    ] {
        enchantments[id as usize] = name.as_bytes().to_vec();
    }
    let mut items: Vec<Vec<u8>> = (0..2001).map(|id| format!("filler_{id}").into_bytes()).collect();
    items[ARROW as usize + 1] = "arrow".as_bytes().to_vec();
    Catalog {
        components: COMPONENTS.to_vec(),
        layouts: vec![
            layout(DataComponent::CustomData, version::V_1_20_5, Shape::Nbt),
            layout(DataComponent::MapDecorations, version::V_1_20_5, Shape::Nbt),
            layout(DataComponent::Damage, version::V_1_20_5, Shape::VarInt),
            layout(DataComponent::Unbreakable, version::V_1_20_5, Shape::Empty),
            layout(DataComponent::Enchantments, version::V_1_20_5, array(pair(Shape::VarInt, Shape::VarInt))),
            layout(
                DataComponent::CustomModelData,
                version::V_1_21_4,
                four(array(Shape::Fixed(4)), array(Shape::Bool), array(Shape::Str), array(Shape::Fixed(4))),
            ),
            layout(DataComponent::AttackAnimation, version::V_26_2, pair(Shape::VarInt, Shape::VarInt)),
            layout(DataComponent::InteractAnimation, version::V_26_2, pair(Shape::VarInt, Shape::VarInt)),
        ],
        registries: registries(),
        enchantments,
        potions: texts(&["healing", "oozing"]),
        attributes: texts(&["max_health", "jump_strength", "max_absorption", "attack_damage"]),
        items: vec![ItemNames { until: version::V_1_20_5, names: items }],
        enchantment_names: vec![(LUNGE as u32, "Lunge".as_bytes().to_vec()), (DENSITY as u32, "Density".as_bytes().to_vec())],
        enchantments_1_20_5: table(40, Some),
        block_entities: Vec::new(),
        particles: Vec::new(),
        sounds: Vec::new(),
    }
}

fn string_tag(text: &str) -> Vec<u8> {
    let mut tag = Vec::new();
    nbt::write_nbt(&mut tag, &nbt::new_string_tag(text.as_bytes()), false);
    tag
}

fn json(text: &str) -> Vec<u8> {
    format!("{{\"text\":\"{text}\"}}").into_bytes()
}

fn world(version: u32) -> World {
    let known = ["Display name", "Lore line"];
    World {
        version,
        ids: mappings(version),
        cat: catalog(),
        texts: Texts {
            rendered: known
                .iter()
                .map(|text| Rendering {
                    tag: string_tag(text),
                    text: TextNode {
                        content: text.as_bytes().to_vec(),
                        arguments: Vec::new(),
                        hover: None,
                        extra: Vec::new(),
                    },
                    json: json(text),
                    plain: text.as_bytes().to_vec(),
                })
                .collect(),
            parsed: known.iter().map(|text| Parsing { text: json(text), tag: string_tag(text) }).collect(),
        },
    }
}

/// A release whose clients have the server's own numbers.
fn native_numbers(version: u32) -> World {
    World { ids: mappings(version::V_26_3), ..world(version) }
}

fn entry(version: u32, registry: &str, name: &str) -> i32 {
    catalog().registry_entry_id(version, registry.as_bytes(), name.as_bytes()).unwrap()
}

fn native_component(component: DataComponent, data: Vec<u8>) -> ItemComponent {
    ItemComponent { id: native_id(component), data }
}

fn stack(id: i32, added: Vec<ItemComponent>) -> Item {
    Item::Structured { count: 1, id, added, removed: Vec::new() }
}

fn components(item: &Item) -> &Vec<ItemComponent> {
    match item {
        Item::Structured { added, .. } => added,
        _ => panic!("a structured stack"),
    }
}

fn compound(item: &Item) -> NbtCompound {
    match item {
        Item::Nbt { nbt: Some(tag), .. } => tag.extract_compound().unwrap(),
        _ => panic!("a stack with a compound"),
    }
}

fn has(added: &[ItemComponent], component: DataComponent, data: &[u8]) -> bool {
    added.iter().any(|found| found.id == native_id(component) && found.data == data)
}

fn lacks(added: &[ItemComponent], component: DataComponent) -> bool {
    added.iter().all(|found| found.id != native_id(component))
}

fn key(name: &str) -> &[u8] {
    name.as_bytes()
}

// --- stacks -------------------------------------------------------------------------------

/// A sharpness 5 diamond sword as the server writes it, then in a client's form.
fn diamond_sword(world: &World) -> Item {
    let native = stack(
        DIAMOND_SWORD,
        vec![
            native_component(DataComponent::Enchantments, vec![1, 12, 5]),
            native_component(DataComponent::Unbreakable, Vec::new()),
        ],
    );
    StructuredItemRewriter::to_version(&native, &world.target())
}

#[test]
fn a_sword_keeps_its_components_from_1_21_5_up() {
    let item = diamond_sword(&world(version::V_1_21_5));
    assert_eq!(components(&item).len(), 2);
    assert_eq!(components(&item)[1].data, Vec::<u8>::new(), "unbreakable is empty");
}

#[test]
fn via_new_item_fallbacks_add_the_custom_model_data_marker() {
    let world_26_2 = world(version::V_26_2);
    let native = stack(NEW_ITEM, Vec::new());
    let downgraded = StructuredItemRewriter::to_version(&native, &world_26_2.target());
    let component_id = world_26_2.component(DataComponent::CustomModelData);
    let model = components(&downgraded).iter().find(|found| found.id == component_id).unwrap();
    assert_eq!(legacy_custom_model_data(&model.data), Some(865));

    let restored = StructuredItemRewriter::to_native(&downgraded, &world_26_2.target());
    assert_eq!(restored.item_id(), Some(72));

    let old = world(version::V_1_20_3);
    let legacy = StructuredItemRewriter::to_version(&native, &old.target());
    assert_eq!(compound(&legacy).get_int(key("CustomModelData")), Some(865));
    assert_eq!(StructuredItemRewriter::to_native(&legacy, &old.target()).item_id(), Some(72));
}

#[test]
fn via_item_fallback_preserves_explicit_custom_model_data() {
    let mut native_model = var_int_bytes(1);
    wire::write_u32(&mut native_model, 42.0f32.to_bits());
    native_model.extend([0, 0, 0]);
    let native = stack(NEW_ITEM, vec![native_component(DataComponent::CustomModelData, native_model.clone())]);

    let world_26_2 = world(version::V_26_2);
    let structured = StructuredItemRewriter::to_version(&native, &world_26_2.target());
    let component_id = world_26_2.component(DataComponent::CustomModelData);
    let model = components(&structured).iter().find(|found| found.id == component_id).unwrap();
    assert_eq!(model.data, native_model);

    let old = world(version::V_1_20_3);
    let legacy = StructuredItemRewriter::to_version(&native, &old.target());
    assert_eq!(
        compound(&legacy).get_int(key("CustomModelData")),
        Some(42),
        "the mapping fallback does not replace an explicit model value"
    );
}

#[test]
fn nested_projectile_items_map_back_to_native_item_and_component_ids() {
    let world = world(version::V_1_20_5);
    let client_item = world.ids.items.map_id(PAPER).unwrap();
    let template = stack(
        client_item,
        vec![ItemComponent { id: world.component(DataComponent::Damage), data: var_int_bytes(7) }],
    );
    let mut payload = var_int_bytes(1);
    write_template(&mut payload, &template).unwrap();
    let mut cursor = payload.as_slice();
    let native =
        read_nested_item_component(DataComponent::ChargedProjectiles, &mut cursor, &world.target()).unwrap();
    assert!(cursor.is_empty());
    let mut native_cursor = native.as_slice();
    assert_eq!(wire::get_var_int(&mut native_cursor), Ok(1));
    let template = get_template(&mut native_cursor, &world.cat).unwrap();
    assert!(native_cursor.is_empty());
    assert_eq!(template.item_id(), Some(PAPER));
    assert!(has(components(&template), DataComponent::Damage, &var_int_bytes(7)));
}

#[test]
fn food_downgrades_with_its_remainder_and_status_effects_for_1_21_1() {
    let world = world(version::V_1_21);
    let mut food = var_int_bytes(5);
    wire::write_u32(&mut food, 2.5f32.to_bits());
    wire::write_bool(&mut food, true);

    let mut consumable = Vec::new();
    wire::write_u32(&mut consumable, 2.25f32.to_bits());
    consumable.extend([0, 1]); // animation, sound
    wire::write_bool(&mut consumable, true);
    consumable.extend([1, 0, 1]); // one effect, which applies one status effect
    wire::write_var_int(&mut consumable, entry(version::V_26_3, "mob_effect", "speed"));
    wire::write_var_int(&mut consumable, 1); // amplifier
    wire::write_var_int(&mut consumable, 600); // duration
    consumable.extend([0, 1, 1, 0]); // ambient, particles, icon, no hidden effect
    wire::write_u32(&mut consumable, 0.75f32.to_bits()); // probability

    let mut remainder = Vec::new();
    write_template(&mut remainder, &stack(GLASS_BOTTLE, Vec::new())).unwrap();
    let native = stack(
        HONEY_BOTTLE,
        vec![
            native_component(DataComponent::Food, food),
            native_component(DataComponent::Consumable, consumable),
            native_component(DataComponent::UseRemainder, remainder),
        ],
    );

    let shown = StructuredItemRewriter::to_version(&native, &world.target());
    let food_id = world.component(DataComponent::Food);
    let payload = components(&shown).iter().find(|found| found.id == food_id).unwrap();
    let mut cursor = payload.data.as_slice();
    assert_eq!(wire::get_var_int(&mut cursor), Ok(5));
    assert_eq!(wire::get_u32(&mut cursor), Ok(2.5f32.to_bits()));
    assert_eq!(wire::get_bool(&mut cursor), Ok(true));
    assert_eq!(wire::get_u32(&mut cursor), Ok(2.25f32.to_bits()));
    assert_eq!(wire::get_var_int(&mut cursor), Ok(1));
    assert_eq!(wire::get_var_int(&mut cursor), Ok(world.ids.items.map_id(GLASS_BOTTLE).unwrap()));
    assert_eq!(wire::get_bytes(&mut cursor, 2), Ok([0u8, 0].as_slice()));
    assert_eq!(wire::get_var_int(&mut cursor), Ok(1));
    assert_eq!(wire::get_var_int(&mut cursor), Ok(entry(version::V_1_21, "mob_effect", "speed")));
    assert_eq!(wire::get_var_int(&mut cursor), Ok(1));
    assert_eq!(wire::get_var_int(&mut cursor), Ok(600));
    assert_eq!(&cursor[..4], &[0, 1, 1, 0]);
    cursor = &cursor[4..];
    assert_eq!(wire::get_u32(&mut cursor), Ok(0.75f32.to_bits()));
    assert!(cursor.is_empty());
}

#[test]
fn enchantments_unknown_to_1_20_5_keep_vias_display_lore() {
    let world = world(version::V_1_20_5);
    let native = stack(DIAMOND_SWORD, vec![native_component(DataComponent::Enchantments, vec![1, LUNGE as u8, 1])]);
    let downgraded = StructuredItemRewriter::to_version(&native, &world.target());
    let lore_id = world.component(DataComponent::Lore);
    let lore = components(&downgraded).iter().find(|found| found.id == lore_id).unwrap();
    let mut cursor = lore.data.as_slice();
    assert_eq!(wire::get_var_int(&mut cursor), Ok(1));
    let line = nbt::get_nbt(&mut cursor, false).unwrap().unwrap().extract_string().unwrap();
    assert!(String::from_utf8(line).unwrap().contains("Lunge I"));
    assert!(cursor.is_empty());
}

#[test]
fn a_sword_gains_the_1_21_4_flags() {
    let item = diamond_sword(&world(version::V_1_21_4));
    assert_eq!(components(&item)[0].data.last(), Some(&1), "tooltip flag");
    assert_eq!(components(&item)[1].data, vec![1], "unbreakable as a bool");
}

#[test]
fn a_sword_becomes_the_nbt_form_below_1_20_5() {
    let item = diamond_sword(&world(version::V_1_20_3));
    let Item::Nbt { count, .. } = &item else {
        panic!("nbt form");
    };
    assert_eq!(*count, 1);
    assert!(compound(&item).get_list(key("Enchantments")).is_some());
    assert_eq!(compound(&item).get_bool(key("Unbreakable")), Some(true));
}

#[test]
fn the_1_21_5_bytes_are_the_whole_stack() {
    let world = world(version::V_1_21_5);
    let mut bytes = Vec::new();
    write_item(&mut bytes, &diamond_sword(&world), world.version, false).unwrap();

    let mut read: &[u8] = &bytes;
    assert_eq!(wire::get_var_int(&mut read), Ok(1), "count");
    assert_eq!(wire::get_var_int(&mut read), Ok(world.ids.items.map_id(DIAMOND_SWORD).unwrap()));
    assert_eq!(wire::get_var_int(&mut read), Ok(2), "two added");
    assert_eq!(wire::get_var_int(&mut read), Ok(0), "none removed");
}

#[test]
fn the_1_21_4_bytes_carry_the_extra_flags() {
    let world = world(version::V_1_21_4);
    let item = diamond_sword(&world);
    let find = |component: DataComponent| {
        components(&item).iter().find(|found| found.id == world.component(component)).unwrap()
    };
    let enchantments = find(DataComponent::Enchantments);
    assert_eq!(enchantments.data.len(), 4);
    assert_eq!(enchantments.data[0], 1, "one enchantment");
    assert_eq!(enchantments.data[3], 1, "the tooltip flag");
    assert_eq!(find(DataComponent::Unbreakable).data, vec![1]);
}

#[test]
fn the_1_20_5_component_ids_are_the_targets_own() {
    let world = world(version::V_1_20_5);
    let item = diamond_sword(&world);
    let wanted = world.ids.data_component_type.map_id(native_id(DataComponent::Enchantments)).unwrap();
    assert_eq!(components(&item)[0].id, wanted);
}

#[test]
fn the_1_20_3_bytes_are_the_nbt_form() {
    let world = world(version::V_1_20_3);
    let mut bytes = Vec::new();
    write_item(&mut bytes, &diamond_sword(&world), world.version, false).unwrap();

    let mut read: &[u8] = &bytes;
    assert_eq!(wire::get_bool(&mut read), Ok(true), "present");
    assert_eq!(wire::get_var_int(&mut read), Ok(world.ids.items.map_id(DIAMOND_SWORD).unwrap()));
    assert_eq!(wire::get_u8(&mut read), Ok(1), "count");
    assert_eq!(read.first(), Some(&10), "a compound follows");
}

#[test]
fn the_26_2_component_payloads_are_unchanged() {
    let native = diamond_sword(&native_numbers(version::V_26_3));
    let target = diamond_sword(&native_numbers(version::V_26_2));
    assert_eq!(
        components(&native).iter().map(|found| &found.data).collect::<Vec<_>>(),
        components(&target).iter().map(|found| &found.data).collect::<Vec<_>>()
    );
}

#[test]
fn interact_animation_uses_the_shared_26_2_component_and_shape() {
    let native_world = world(version::V_26_3);
    let world = world(version::V_26_2);
    let attack = native_id(DataComponent::AttackAnimation);
    let native = stack(DIAMOND_SWORD, vec![native_component(DataComponent::InteractAnimation, vec![1, 6])]);

    let mut native_bytes = Vec::new();
    write_item(&mut native_bytes, &native, version::V_26_3, false).unwrap();
    let mut native_reader: &[u8] = &native_bytes;
    let decoded = ClientboundItemT::new(native_world.target()).read(&mut native_reader).unwrap();
    assert!(native_reader.is_empty());

    let downgraded = StructuredItemRewriter::to_version(&decoded, &world.target());
    assert_eq!(components(&downgraded).len(), 1);
    assert_eq!(components(&downgraded)[0].id, attack);
    assert_eq!(components(&downgraded)[0].data, vec![1, 6]);

    let mut target_bytes = Vec::new();
    write_item(&mut target_bytes, &downgraded, world.version, false).unwrap();
    let mut target_reader: &[u8] = &target_bytes;
    let target_item = ClientboundItemT::new(world.target()).read(&mut target_reader).unwrap();
    assert!(target_reader.is_empty());
    assert_eq!(components(&target_item)[0].id, attack);
    assert_eq!(components(&target_item)[0].data, vec![1, 6]);

    let mut client_reader: &[u8] = &target_bytes;
    let native = read_client_item(&mut client_reader, false, &world.target()).unwrap();
    assert!(client_reader.is_empty());
    assert_eq!(components(&native).len(), 1);
    assert_eq!(components(&native)[0].id, attack);
    assert_eq!(components(&native)[0].data, vec![1, 6]);
}

#[test]
fn attack_and_interact_animation_collapse_without_duplicate_ids() {
    let world = world(version::V_26_2);
    let attack = native_id(DataComponent::AttackAnimation);
    let interact = native_id(DataComponent::InteractAnimation);
    let native = Item::Structured {
        count: 1,
        id: DIAMOND_SWORD,
        added: vec![
            ItemComponent { id: attack, data: vec![0, 4] },
            ItemComponent { id: interact, data: vec![1, 6] },
        ],
        removed: vec![attack, interact],
    };
    let Item::Structured { added, removed, .. } = StructuredItemRewriter::to_version(&native, &world.target()) else {
        panic!("structured");
    };
    assert_eq!(added.len(), 1);
    assert_eq!(added[0].id, attack);
    assert_eq!(added[0].data, vec![1, 6]);
    assert_eq!(removed, vec![attack]);
}

#[test]
fn a_component_the_target_lacks_leaves_the_stack() {
    let world = world(version::V_1_20_5);
    assert!(world.ids.data_component_type.map_id(native_id(DataComponent::Weapon)).is_none());
    let native = stack(DIAMOND_SWORD, vec![native_component(DataComponent::Weapon, vec![0, 0])]);
    assert!(components(&StructuredItemRewriter::to_version(&native, &world.target())).is_empty());
}

#[test]
fn an_empty_stack_stays_empty_in_every_form() {
    for version in [version::V_26_2, version::V_1_21_5, version::V_1_20_3, version::V_1_16_2] {
        let out = StructuredItemRewriter::to_version(&Item::Empty, &world(version).target());
        assert!(out.is_empty(), "{version}");
        let mut bytes = Vec::new();
        write_item(&mut bytes, &out, version, false).unwrap();
        assert_eq!(bytes, vec![0], "{version}");
    }
}

#[test]
fn an_item_the_target_lacks_becomes_an_empty_stack() {
    let world = world(version::V_1_21_4);
    let absent = world.ids.items.len() as i32;
    assert!(world.ids.items.map_id(absent).is_none());
    assert!(StructuredItemRewriter::to_version(&stack(absent, Vec::new()), &world.target()).is_empty());
}

#[test]
fn the_structured_form_round_trips_through_the_wire() {
    for version in [version::V_26_3, version::V_1_21_5, version::V_1_21_4, version::V_1_20_5] {
        let item = diamond_sword(&world(version));
        let mut bytes = Vec::new();
        write_item(&mut bytes, &item, version, false).unwrap();
        let mut read: &[u8] = &bytes;
        assert_eq!(wire::get_var_int(&mut read), Ok(1), "{version}");
    }
}

#[test]
fn a_client_stack_comes_back_with_26_3_ids() {
    let world = world(version::V_1_21_4);
    let mut bytes = Vec::new();
    write_item(&mut bytes, &diamond_sword(&world), world.version, false).unwrap();
    let mut read: &[u8] = &bytes;
    let native = read_client_item(&mut read, false, &world.target()).unwrap();
    assert!(read.is_empty());
    assert_eq!(native.item_id(), Some(DIAMOND_SWORD));
    assert_eq!(components(&native)[0].data, vec![1, 12, 5]);
    assert_eq!(components(&native)[1].data, Vec::<u8>::new(), "unbreakable is empty again");
}

#[test]
fn a_1_21_4_custom_model_arrays_are_read_without_a_length_prefix() {
    let world = world(version::V_1_21_4);
    let mut bytes = vec![1]; // stack count
    wire::write_var_int(&mut bytes, world.ids.items.map_id(PAPER).unwrap());
    bytes.extend([1, 0]); // one added, none removed
    wire::write_var_int(&mut bytes, world.component(DataComponent::CustomModelData));
    let mut model = var_int_bytes(1); // floats
    wire::write_u32(&mut model, 7.5f32.to_bits());
    model.extend([1, 1]); // flags
    model.push(1); // strings
    wire::write_str(&mut model, key("model"));
    model.push(1); // colors
    wire::write_i32(&mut model, 0x1234_5678);
    bytes.extend(model.clone());

    let mut read = bytes.as_slice();
    let item = read_client_item(&mut read, false, &world.target()).unwrap();
    assert!(read.is_empty());
    assert!(has(components(&item), DataComponent::CustomModelData, &model));
}

#[test]
fn a_length_prefixed_client_stack_comes_back_with_26_3_ids() {
    let world = world(version::V_1_21_5);
    let mut bytes = Vec::new();
    write_item(&mut bytes, &diamond_sword(&world), world.version, true).unwrap();
    let mut read: &[u8] = &bytes;
    let native = read_client_item(&mut read, true, &world.target()).unwrap();
    assert!(read.is_empty());
    assert_eq!(native.item_id(), Some(DIAMOND_SWORD));

    let mut read: &[u8] = &bytes;
    let reader = ClientItemT::new(world.target());
    assert!(reader.length_prefixed());
    assert_eq!(reader.read(&mut read).unwrap().item_id(), Some(DIAMOND_SWORD));
    assert!(!ClientItemT::new(crate::world(version::V_1_21_4).target()).length_prefixed());
}

#[test]
fn a_26_2_consumable_click_adds_the_default_directional_flag() {
    let world = world(version::V_26_2);
    let mut old_payload = Vec::new();
    wire::write_u32(&mut old_payload, 1.25f32.to_bits());
    old_payload.extend([0, 1, 0]); // animation, sound, consume particles
    old_payload.extend([1, 3]); // one effect: teleport randomly
    wire::write_u32(&mut old_payload, 16.0f32.to_bits());
    let client_item = stack(
        world.ids.items.map_id(GOLDEN_APPLE).unwrap(),
        vec![ItemComponent { id: world.component(DataComponent::Consumable), data: old_payload.clone() }],
    );
    let mut bytes = Vec::new();
    write_item(&mut bytes, &client_item, world.version, true).unwrap();
    let mut reader = bytes.as_slice();
    let native = read_client_item(&mut reader, true, &world.target()).unwrap();
    assert!(reader.is_empty());
    old_payload.push(1); // 26.2 omits the flag; 26.3 defaults it to true.
    assert!(has(components(&native), DataComponent::Consumable, &old_payload));
}

#[test]
fn the_nbt_form_round_trips_back_to_components() {
    let world = world(version::V_1_20_3);
    let mut bytes = Vec::new();
    write_item(&mut bytes, &diamond_sword(&world), world.version, false).unwrap();
    let mut read: &[u8] = &bytes;
    let native = read_client_item(&mut read, false, &world.target()).unwrap();
    assert!(read.is_empty());
    assert_eq!(native.item_id(), Some(DIAMOND_SWORD));
    assert!(!lacks(components(&native), DataComponent::Enchantments));
}

#[test]
fn negative_client_id_set_lengths_are_rejected() {
    for count in [-1, i32::MIN] {
        let payload = var_int_bytes(count);
        let mut cursor = payload.as_slice();
        assert!(skip_id_set(&mut cursor).is_err());
    }
}

#[test]
fn stacks_in_packets_are_rewritten() {
    let native_world = world(version::V_26_3);
    let world = world(version::V_1_21_4);
    let mut bytes = Vec::new();
    write_item(&mut bytes, &diamond_sword(&world), world.version, false).unwrap();
    bytes.push(99);

    // A stack that the server wrote in the client's layout keeps its meaning.
    let mut out = Vec::new();
    let mut r = bytes.as_slice();
    rewrite_item(&mut r, &mut out, &world.target()).unwrap();
    assert_eq!(r, [99]);
    assert_eq!(out, bytes[..bytes.len() - 1]);

    let mut r = bytes.as_slice();
    let value = read_native_item_value(&mut r, &world.target()).unwrap();
    let mut value_reader = value.as_slice();
    let native = ClientboundItemT::new(native_world.target()).read(&mut value_reader).unwrap();
    assert_eq!(native.item_id(), Some(DIAMOND_SWORD));

    // A stack that loses nothing stays as it was; one that does gets a marker.
    let mut connection = UserConnection::new(9, world.version);
    let mut plain = vec![1];
    wire::write_var_int(&mut plain, world.ids.items.map_id(PAPER).unwrap());
    plain.extend([0, 0]);
    let mut out = Vec::new();
    let mut r = plain.as_slice();
    item_pass(&mut r, &mut out, &mut connection, &Vec::new(), &world.target()).unwrap();
    assert_eq!(out, plain);
    let mut out = Vec::new();
    let mut r = bytes.as_slice();
    item_pass(&mut r, &mut out, &mut connection, &Vec::new(), &world.target()).unwrap();
    assert_eq!(r, [99]);
    let mut kept = out.as_slice();
    let kept = ClientboundItemT::new(world.target()).read(&mut kept).unwrap();
    assert!(custom_data(components(&kept)).unwrap().get(key(MARKER)).is_some());
    let mut r: &[u8] = &[];
    assert!(item_pass(&mut r, &mut out, &mut connection, &Vec::new(), &world.target()).is_err());
}

// --- component payloads -------------------------------------------------------------------

fn float_tag(value: f32) -> NbtTag {
    let mut bytes = vec![5];
    wire::write_u32(&mut bytes, value.to_bits());
    let mut r = bytes.as_slice();
    nbt::get_nbt(&mut r, false).unwrap().unwrap()
}

fn same_tag(left: &NbtTag, right: &NbtTag) -> bool {
    let (mut a, mut b) = (Vec::new(), Vec::new());
    nbt::write_nbt(&mut a, left, false);
    nbt::write_nbt(&mut b, right, false);
    a == b
}

#[test]
fn map_decoration_types_downgrade_without_changing_other_entry_data() {
    let new_types = ["abandoned_camp", "ancient_city", "desert_pyramid", "mineshaft", "ocean_ruin_warm"];
    let mut decorations = NbtCompound::new();
    for (index, decoration_type) in new_types.into_iter().enumerate() {
        let mut row = NbtCompound::new();
        row.put_string(key("type"), key(decoration_type));
        row.put_int(key("x"), index as i32 - 2);
        row.put_int(key("z"), 17 + index as i32);
        row.put(key("rotation"), float_tag(1.25));
        decorations.put_compound(format!("new_{index}").as_bytes(), &row);
    }
    let mut unchanged = NbtCompound::new();
    unchanged.put_string(key("type"), key("village_desert"));
    unchanged.put_int(key("x"), 100);
    decorations.put_compound(key("existing"), &unchanged);

    let payload = write_custom_data(&decorations);
    let world = native_numbers(version::V_26_2);
    let downgraded = to_version(DataComponent::MapDecorations, &payload, &world.target()).unwrap();
    let downgraded = read_custom_data(&downgraded).unwrap();
    for index in 0..new_types.len() {
        let row = downgraded.get_compound(format!("new_{index}").as_bytes()).unwrap();
        assert_eq!(row.get_string(key("type")).unwrap(), key("village_plains"));
        assert_eq!(row.get_int(key("x")), Some(index as i32 - 2));
        assert_eq!(row.get_int(key("z")), Some(17 + index as i32));
        assert!(same_tag(row.get(key("rotation")).unwrap(), &float_tag(1.25)));
    }
    let row = downgraded.get_compound(key("existing")).unwrap();
    assert_eq!(row.get_string(key("type")).unwrap(), key("village_desert"));
    assert_eq!(row.get_int(key("x")), Some(100));
}

#[test]
fn enchantments_gain_a_tooltip_flag_below_1_21_5() {
    let native = vec![1, 33, 5];
    let shown = |version: u32| to_version(DataComponent::Enchantments, &native, &native_numbers(version).target());
    assert_eq!(shown(version::V_1_21_4), Some(vec![1, 33, 5, 1]));
    assert_eq!(shown(version::V_1_21_5), Some(native.clone()));
}

#[test]
fn adventure_predicates_keep_block_sets_and_tooltip_visibility() {
    let world = world(version::V_1_21_4);
    let source_block = entry(version::V_26_3, "block", "stone");
    let mapped_block = world.ids.blocks.map_id(source_block).unwrap();
    let mut native = vec![1, 1, 2]; // one predicate, with a set of one block
    wire::write_var_int(&mut native, source_block);
    native.extend([0, 0, 0, 0]); // no properties, tag, components or matchers

    for component in [DataComponent::CanPlaceOn, DataComponent::CanBreak] {
        for show_in_tooltip in [true, false] {
            let encoded =
                to_version_with_tooltip(component, &native, &world.target(), show_in_tooltip).unwrap();
            let mut cursor = encoded.as_slice();
            assert_eq!(wire::get_var_int(&mut cursor), Ok(1));
            assert_eq!(wire::get_bool(&mut cursor), Ok(true));
            assert_eq!(wire::get_var_int(&mut cursor), Ok(2));
            assert_eq!(wire::get_var_int(&mut cursor), Ok(mapped_block));
            assert_eq!(wire::get_bool(&mut cursor), Ok(false));
            assert_eq!(wire::get_bool(&mut cursor), Ok(false));
            assert_eq!(wire::get_bool(&mut cursor), Ok(show_in_tooltip));
            assert!(cursor.is_empty());
        }
    }
}

#[test]
fn unbreakable_is_a_bool_below_1_21_5() {
    let world = native_numbers(version::V_1_21_4);
    assert_eq!(to_version(DataComponent::Unbreakable, &[], &world.target()), Some(vec![1]));
}

#[test]
fn entity_data_loses_its_type_prefix_below_1_21_9() {
    let world = native_numbers(version::V_1_21_7);
    assert_eq!(to_version(DataComponent::EntityData, &[7, 0], &world.target()), Some(vec![0]));
}

#[test]
fn a_component_without_a_converter_is_dropped() {
    let world = native_numbers(version::V_1_21_4);
    assert_eq!(to_version(DataComponent::IntangibleProjectile, &[0], &world.target()), None);
}

#[test]
fn jukebox_song_ids_map_by_name_and_inline_songs_are_consumed() {
    let world = world(version::V_1_21_4);
    let target_id = entry(world.version, "jukebox_song", "cat");
    let native = var_int_bytes(entry(version::V_26_3, "jukebox_song", "cat"));
    let mut expected = vec![1]; // the older holder arm
    wire::write_var_int(&mut expected, target_id + 1);
    expected.push(1); // visible in the legacy tooltip
    assert_eq!(to_version(DataComponent::JukeboxPlayable, &native, &world.target()), Some(expected));

    let mut holder = vec![1];
    wire::write_var_int(&mut holder, target_id + 1);
    holder.push(1); // 1.21.4 show_in_tooltip
    holder.push(0x7f); // next unlength-prefixed component
    let mut cursor = holder.as_slice();
    assert_eq!(
        legacy_jukebox_playable_to_native(&mut cursor, world.version, false, &world.cat),
        Ok(Some(native.clone()))
    );
    assert_eq!(cursor, &[0x7f]);

    let mut inline = vec![1, 0, 0]; // holder arm; inline song; inline sound
    wire::write_str(&mut inline, key("minecraft:music_disc.cat"));
    inline.push(0); // no fixed range
    inline.push(0); // no song description
    wire::write_u32(&mut inline, 180.0f32.to_bits());
    wire::write_var_int(&mut inline, 15);
    inline.push(1); // 1.21.4 show_in_tooltip
    inline.push(0x7f);
    let mut cursor = inline.as_slice();
    assert_eq!(
        legacy_jukebox_playable_to_native(&mut cursor, world.version, false, &world.cat),
        Ok(None),
        "dynamic inline jukebox data cannot become a static registry id"
    );
    assert_eq!(cursor, &[0x7f]);
}

fn holder(version: u32, registry: &str, name: &str) -> Vec<u8> {
    var_int_bytes(entry(version, registry, name) + 1)
}

fn trim(version: u32) -> Vec<u8> {
    [holder(version, "trim_material", "iron"), holder(version, "trim_pattern", "coast")].concat()
}

fn horn(version: u32) -> Vec<u8> {
    holder(version, "instrument", "ponder_goat_horn")
}

fn from_client(component: DataComponent, payload: &[u8], bounded: bool, world: &World) -> Option<Vec<u8>> {
    let mut r = payload;
    let found = legacy_registry_component_to_native(component, &mut r, world.version, bounded, &world.cat).unwrap();
    assert!(r.is_empty());
    found
}

#[test]
fn trim_instrument_and_material_holder_ids_map_by_registry_name() {
    let old = world(version::V_1_20_5);
    let native = horn(version::V_26_3);
    let encoded = to_version(DataComponent::Instrument, &native, &old.target()).unwrap();
    let mut shared = encoded.clone();
    shared.extend([0x55, 0x66]); // Following component/header bytes.
    let mut cursor = shared.as_slice();
    assert_eq!(
        legacy_registry_component_to_native(
            DataComponent::Instrument,
            &mut cursor,
            old.version,
            false,
            &old.cat
        ),
        Ok(Some(native.clone()))
    );
    assert_eq!(cursor, &[0x55, 0x66]);
    let mut bounded = shared.as_slice();
    assert!(legacy_registry_component_to_native(
        DataComponent::Instrument,
        &mut bounded,
        old.version,
        true,
        &old.cat
    )
    .is_err());

    let world = world(version::V_1_21_5);
    let expected_trim = trim(world.version);
    assert_eq!(
        to_version(DataComponent::Trim, &trim(version::V_26_3), &world.target()),
        Some(expected_trim.clone())
    );
    assert_eq!(
        registry_ids_to_native(DataComponent::Trim, &expected_trim, world.version, &world.cat),
        Ok(trim(version::V_26_3))
    );

    let mapped = to_version(DataComponent::Instrument, &native, &world.target()).unwrap();
    let expected = [vec![1], horn(world.version)].concat(); // holder arm in 1.21.5+
    assert_eq!(mapped, expected);
    assert_eq!(from_client(DataComponent::Instrument, &expected, true, &world), Some(native));

    let material = holder(version::V_26_3, "trim_material", "redstone");
    let mapped = to_version(DataComponent::ProvidesTrimMaterial, &material, &world.target()).unwrap();
    let expected = [vec![1], holder(world.version, "trim_material", "redstone")].concat();
    assert_eq!(mapped, expected);
    assert_eq!(from_client(DataComponent::ProvidesTrimMaterial, &expected, true, &world), Some(material));
}

#[test]
fn legacy_trim_and_instrument_holders_round_trip_for_1_21_4() {
    let old = world(version::V_1_21_4);
    let legacy_trim = to_version(DataComponent::Trim, &trim(version::V_26_3), &old.target()).unwrap();
    let mut read = legacy_trim.as_slice();
    for (registry, name) in [("trim_material", "iron"), ("trim_pattern", "coast")] {
        assert_eq!(wire::get_var_int(&mut read), Ok(entry(old.version, registry, name) + 1));
    }
    assert_eq!(wire::get_bool(&mut read), Ok(true), "trim remains visible in tooltips");
    assert!(read.is_empty());
    assert_eq!(from_client(DataComponent::Trim, &legacy_trim, true, &old), Some(trim(version::V_26_3)));

    let native_horn = horn(version::V_26_3);
    let legacy_horn = to_version(DataComponent::Instrument, &native_horn, &old.target()).unwrap();
    assert_eq!(legacy_horn, horn(old.version));
    assert_eq!(from_client(DataComponent::Instrument, &legacy_horn, true, &old), Some(native_horn.clone()));

    let mut string_arm = vec![0]; // direct resource-location arm
    wire::write_str(&mut string_arm, key("minecraft:ponder_goat_horn"));
    assert_eq!(
        from_client(DataComponent::Instrument, &string_arm, true, &world(version::V_1_21_5)),
        Some(native_horn.clone())
    );

    let new = world(version::V_26_2);
    assert_eq!(
        to_version(DataComponent::Instrument, &native_horn, &new.target()),
        Some(horn(new.version)),
        "26.2 uses a holder directly, without the 1.21.5 EitherHolder flag"
    );
    assert_eq!(
        to_version(DataComponent::Trim, &trim(version::V_26_3), &new.target()),
        Some(trim(new.version)),
        "26.2 trim has no tooltip boolean"
    );
    assert_eq!(
        to_version(
            DataComponent::ProvidesTrimMaterial,
            &holder(version::V_26_3, "trim_material", "redstone"),
            &new.target()
        ),
        Some(holder(new.version, "trim_material", "redstone")),
        "26.2 uses a holder directly for provides_trim_material"
    );
}

fn single_model(value: f32) -> Vec<u8> {
    let mut model = vec![1];
    model.extend(value.to_bits().to_be_bytes());
    model.extend([0, 0, 0]);
    model
}

#[test]
fn custom_model_data_downgrades_only_a_single_whole_float_before_1_21_4() {
    let native = single_model(7.0);
    let shown = |data: &[u8], version: u32| {
        to_version(DataComponent::CustomModelData, data, &native_numbers(version).target())
    };
    assert_eq!(shown(&native, version::V_1_21_2), Some(var_int_bytes(7)));
    assert_eq!(shown(&native, version::V_1_21_5), Some(native.clone()));
    assert_eq!(shown(&native, version::V_1_21_4), Some(native.clone()));
    assert_eq!(shown(&single_model(7.5), version::V_1_21_2), None);
}

#[test]
fn an_unknown_source_registry_id_fails_closed() {
    let world = world(version::V_26_2);
    let mut payload = var_int_bytes(127);
    wire::write_var_int(&mut payload, entry(version::V_26_3, "trim_pattern", "coast"));
    assert_eq!(to_version(DataComponent::Trim, &payload, &world.target()), None);
}

#[test]
fn negative_id_set_lengths_are_rejected() {
    let cat = catalog();
    for count in [-1, i32::MIN] {
        let payload = var_int_bytes(count);
        let mut cursor = payload.as_slice();
        let mut output = Vec::new();
        assert!(shape::rewrite(&Shape::IdSet, &mut cursor, &mut output, &cat, version::V_26_3).is_err());
    }
}

#[test]
fn unmappable_painting_holder_is_rejected_instead_of_becoming_inline() {
    assert!(holder_id(&var_int_bytes(-1), &mappings(version::V_26_3).paintings).is_err());
}

#[test]
fn nested_item_lists_reject_negative_counts() {
    let world = native_numbers(version::V_1_21_5);
    assert!(nested_stacks(&var_int_bytes(-1), true, &world.target()).is_err());
    assert!(nested_stacks(&var_int_bytes(-1), false, &world.target()).is_err());
}

fn consume_effects(component: DataComponent, directional_particles: Option<bool>) -> Vec<u8> {
    let mut payload = Vec::new();
    if component == DataComponent::Consumable {
        wire::write_u32(&mut payload, 1.25f32.to_bits());
        payload.extend([0, 1, 0]); // animation, sound, consume particles
    }
    payload.extend([1, 3]); // one effect: teleport randomly
    wire::write_u32(&mut payload, 16.0f32.to_bits());
    if let Some(directional_particles) = directional_particles {
        wire::write_bool(&mut payload, directional_particles);
    }
    payload
}

#[test]
fn the_26_3_consume_effect_flag_is_removed_and_defaulted_for_26_2() {
    let world = native_numbers(version::V_26_2);
    for component in [DataComponent::Consumable, DataComponent::DeathProtection] {
        let native = consume_effects(component, Some(false));
        let client = to_version(component, &native, &world.target()).unwrap();
        assert_eq!(client, consume_effects(component, None), "the newer field is dropped");
        assert_eq!(
            consume_effects_to_native(component, &client, version::V_26_2, &world.cat),
            Ok(consume_effects(component, Some(true))),
            "older clients default to directional particles"
        );
    }
}

// --- hashes and backups -------------------------------------------------------------------

#[test]
fn crc32c_uses_the_vanilla_castagnoli_polynomial() {
    assert_eq!(crc32c(b"123456789") as u32, 0xe306_9283);
}

#[test]
fn integer_and_string_component_hashes_match_pumpkin_hash_primitives() {
    let mut number = vec![8];
    number.extend(42i32.to_le_bytes());
    assert_eq!(hash_tag(&nbt::new_int_tag(42)), Some(checksum(CrcAlgorithm::Crc32Iscsi, &number) as u32 as i32));

    let mut text = vec![12];
    text.extend((MARKER.len() as u32).to_le_bytes());
    for unit in MARKER.encode_utf16() {
        text.extend(unit.to_le_bytes());
    }
    assert_eq!(hash_string(key(MARKER)), Some(checksum(CrcAlgorithm::Crc32Iscsi, &text) as u32 as i32));
}

#[test]
fn compound_hash_does_not_depend_on_hashmap_iteration_order() {
    let mut left = NbtCompound::new();
    left.put_int(key("first"), 1);
    left.put_int(key("second"), 2);
    let mut right = NbtCompound::new();
    right.put_int(key("second"), 2);
    right.put_int(key("first"), 1);
    assert!(hash_compound(&left).is_some());
    assert_eq!(hash_compound(&left), hash_compound(&right));
}

/// Any hash will do, as long as each component has its own.
fn hashes(item: &Item) -> Vec<ComponentHash> {
    components(item)
        .iter()
        .map(|found| ComponentHash { id: found.id, data: found.data.clone(), hash: 1000 + found.id })
        .collect()
}

fn send(connection: &mut UserConnection, native: &Item, world: &World) -> Item {
    let downgraded = StructuredItemRewriter::to_version(native, &world.target());
    backup_clientbound_item(connection, native, downgraded, &hashes(native), &world.target())
}

/// Reads a stack of custom data, decorations, damage and animations as it stands.
fn read_raw(bytes: &[u8], world: &World) -> Item {
    let mut r = bytes;
    let count = wire::get_var_int(&mut r).unwrap();
    let id = wire::get_var_int(&mut r).unwrap();
    let to_add = wire::get_var_int(&mut r).unwrap();
    let to_remove = wire::get_var_int(&mut r).unwrap();
    let mut added = Vec::new();
    for _ in 0..to_add {
        let id = wire::get_var_int(&mut r).unwrap();
        let before = r;
        if [DataComponent::CustomData, DataComponent::MapDecorations].iter().any(|tag| world.component(*tag) == id) {
            get_raw_nbt(&mut r, false).unwrap();
        } else if world.component(DataComponent::Damage) == id {
            wire::get_var_int(&mut r).unwrap();
        } else {
            assert_eq!(id, world.component(DataComponent::AttackAnimation));
            wire::get_var_int(&mut r).unwrap();
            wire::get_var_int(&mut r).unwrap();
        }
        added.push(ItemComponent { id, data: before[..before.len() - r.len()].to_vec() });
    }
    let removed = (0..to_remove).map(|_| wire::get_var_int(&mut r).unwrap()).collect();
    assert!(r.is_empty());
    Item::Structured { count, id, added, removed }
}

fn over_the_wire(item: &Item, world: &World) -> Item {
    let mut bytes = Vec::new();
    write_item(&mut bytes, item, world.version, false).unwrap();
    if world.version < version::V_1_20_5 {
        let mut r = bytes.as_slice();
        let back = get_nbt_stack(&mut r, world.version).unwrap();
        assert!(r.is_empty());
        back
    } else {
        read_raw(&bytes, world)
    }
}

fn custom_data(added: &[ItemComponent]) -> Option<NbtCompound> {
    let found = added.iter().find(|found| found.id == native_id(DataComponent::CustomData))?;
    read_custom_data(&found.data)
}

#[test]
fn merged_animation_round_trips_for_hash_clicks_and_full_items() {
    let world = world(version::V_26_2);
    let native = stack(
        DIAMOND_SWORD,
        vec![
            native_component(DataComponent::AttackAnimation, vec![0, 4]),
            native_component(DataComponent::InteractAnimation, vec![1, 6]),
        ],
    );
    let mut connection = UserConnection::new(17, world.version);
    let downgraded = send(&mut connection, &native, &world);

    let custom_data_id = world.component(DataComponent::CustomData);
    let marker = components(&downgraded).iter().find(|found| found.id == custom_data_id).unwrap();
    let custom_hash = hash_compound(&read_custom_data(&marker.data).unwrap()).unwrap();

    let clicked = HashedItem {
        id: downgraded.item_id().unwrap(),
        count: 3,
        added: vec![(custom_data_id, custom_hash), (native_id(DataComponent::AttackAnimation), 12345)],
        removed: Vec::new(),
    };
    let clicked = rewrite_hashed_item(&connection, &clicked, &world.target()).unwrap();
    assert_eq!(clicked.count, 3, "a split stack keeps its client count");
    assert!(!clicked.added.iter().any(|(id, _)| *id == native_id(DataComponent::CustomData)));
    for expected in hashes(&native) {
        assert!(clicked.added.contains(&(expected.id, expected.hash)));
    }

    let client_item = over_the_wire(&downgraded, &world);
    let other_connection = UserConnection::new(18, world.version);
    let full_item = StructuredItemRewriter::to_native(&client_item, &world.target());
    let full_item = restore_full_item(&other_connection, full_item, &world.target());
    let visible = custom_data(components(&full_item)).expect("untrusted marker remains visible");
    assert!(visible.get(key(MARKER)).is_some());

    let full_item = StructuredItemRewriter::to_native(&client_item, &world.target());
    let full_item = restore_full_item(&connection, full_item, &world.target());
    let added = components(&full_item);
    assert_eq!(added.len(), 2);
    assert!(has(added, DataComponent::AttackAnimation, &[0, 4]));
    assert!(has(added, DataComponent::InteractAnimation, &[1, 6]));
}

#[test]
fn inconvertible_components_round_trip_for_legacy_and_structured_clients() {
    let mut owner = NbtCompound::new();
    owner.put_string(key("owner"), key("kept"));
    let native = stack(
        DIAMOND_SWORD,
        vec![
            native_component(DataComponent::AttackAnimation, vec![0, 4]),
            native_component(DataComponent::Damage, var_int_bytes(5)),
            native_component(DataComponent::CustomData, write_custom_data(&owner)),
        ],
    );
    for version in [version::V_1_16_2, version::V_1_20_5] {
        let world = world(version);
        let mut connection = UserConnection::new(19, version);
        let downgraded = send(&mut connection, &native, &world);
        let client_item = over_the_wire(&downgraded, &world);
        let returned = StructuredItemRewriter::to_native(&client_item, &world.target());
        let returned = restore_full_item(&connection, returned, &world.target());
        let added = components(&returned);
        assert!(has(added, DataComponent::AttackAnimation, &[0, 4]), "{version}");
        assert!(has(added, DataComponent::Damage, &var_int_bytes(5)), "{version}");
        let restored = custom_data(added).expect("the original custom data remains");
        assert_eq!(restored.get_string(key("owner")).unwrap(), key("kept"), "{version}");
        assert!(restored.get(key(MARKER)).is_none(), "{version}");
    }
}

#[test]
fn via_custom_model_fallback_restores_the_original_new_item_and_removes_the_marker() {
    let world = world(version::V_26_2);
    let native = stack(NEW_ITEM, Vec::new());
    let mut connection = UserConnection::new(0x2623_00f1, world.version);
    let downgraded = send(&mut connection, &native, &world);
    let returned = StructuredItemRewriter::to_native(&downgraded, &world.target());
    let returned = restore_full_item(&connection, returned, &world.target());
    assert_eq!(returned.item_id(), Some(72));
    assert!(
        lacks(components(&returned), DataComponent::CustomModelData),
        "synthetic display metadata is removed before the stack returns"
    );
    assert!(lacks(components(&returned), DataComponent::CustomData), "the temporary backup marker is removed");
}

#[test]
fn trim_and_instrument_components_round_trip_across_the_supported_layout_families() {
    let trim = [
        var_int_bytes(entry(version::V_26_3, "trim_material", "iron")),
        var_int_bytes(entry(version::V_26_3, "trim_pattern", "coast")),
    ]
    .concat();
    let native = stack(
        DIAMOND_SWORD,
        vec![
            native_component(DataComponent::Trim, trim),
            native_component(
                DataComponent::Instrument,
                var_int_bytes(entry(version::V_26_3, "instrument", "ponder_goat_horn")),
            ),
            native_component(
                DataComponent::ProvidesTrimMaterial,
                var_int_bytes(entry(version::V_26_3, "trim_material", "redstone")),
            ),
        ],
    );
    for version in [version::V_1_16_2, version::V_1_20_5, version::V_1_21_5, version::V_26_2] {
        let world = world(version);
        let mut connection = UserConnection::new(20, version);
        let downgraded = send(&mut connection, &native, &world);
        let mut bytes = Vec::new();
        write_item(&mut bytes, &downgraded, version, false).unwrap();
        let mut input = bytes.as_slice();
        let returned = ClientboundItemT::new(world.target()).read(&mut input).unwrap();
        assert!(input.is_empty(), "{version}");
        let returned = restore_full_item(&connection, returned, &world.target());
        for expected in components(&native) {
            assert!(
                components(&returned).iter().any(|found| found.id == expected.id && found.data == expected.data),
                "{version}: component {}",
                expected.id
            );
        }
    }
}

#[test]
fn map_decoration_backup_round_trips_for_hash_clicks_and_full_items() {
    let world = world(version::V_26_2);
    let mut decoration = NbtCompound::new();
    decoration.put_string(key("type"), key("abandoned_camp"));
    decoration.put_int(key("x"), -24);
    decoration.put_int(key("z"), 31);
    decoration.put(key("rotation"), float_tag(1.5));
    let mut decorations = NbtCompound::new();
    decorations.put_compound(key("camp"), &decoration);
    let map_payload = write_custom_data(&decorations);
    let native = stack(FILLED_MAP, vec![native_component(DataComponent::MapDecorations, map_payload.clone())]);
    let mut connection = UserConnection::new(27, world.version);
    let downgraded = send(&mut connection, &native, &world);

    let map_id = world.component(DataComponent::MapDecorations);
    let shown = components(&downgraded).iter().find(|found| found.id == map_id).unwrap();
    let row = read_custom_data(&shown.data).unwrap().get_compound(key("camp")).unwrap();
    assert_eq!(row.get_string(key("type")).unwrap(), key("village_plains"));
    assert_eq!(row.get_int(key("x")), Some(-24));
    assert_eq!(row.get_int(key("z")), Some(31));
    assert!(same_tag(row.get(key("rotation")).unwrap(), &float_tag(1.5)));

    let custom_data_id = world.component(DataComponent::CustomData);
    let marker = components(&downgraded).iter().find(|found| found.id == custom_data_id).unwrap();
    let custom_hash = hash_compound(&read_custom_data(&marker.data).unwrap()).unwrap();
    let clicked = HashedItem {
        id: downgraded.item_id().unwrap(),
        count: 1,
        added: vec![(custom_data_id, custom_hash), (map_id, 123)],
        removed: Vec::new(),
    };
    let clicked = rewrite_hashed_item(&connection, &clicked, &world.target()).unwrap();
    let expected = &hashes(&native)[0];
    assert!(clicked.added.contains(&(expected.id, expected.hash)));

    let client_item = over_the_wire(&downgraded, &world);
    let full_item = StructuredItemRewriter::to_native(&client_item, &world.target());
    let full_item = restore_full_item(&connection, full_item, &world.target());
    assert_eq!(components(&full_item).len(), 1);
    assert!(has(components(&full_item), DataComponent::MapDecorations, &map_payload));
}

#[test]
fn backup_and_restore_preserve_preexisting_custom_data() {
    let world = world(version::V_26_2);
    let mut owner = NbtCompound::new();
    owner.put_string(key("owner"), key("server"));
    let native = stack(
        DIAMOND_SWORD,
        vec![
            native_component(DataComponent::CustomData, write_custom_data(&owner)),
            native_component(DataComponent::InteractAnimation, vec![1, 6]),
        ],
    );
    let mut connection = UserConnection::new(19, world.version);
    let downgraded = send(&mut connection, &native, &world);
    let client_item = over_the_wire(&downgraded, &world);
    let full_item = StructuredItemRewriter::to_native(&client_item, &world.target());
    let full_item = restore_full_item(&connection, full_item, &world.target());
    let restored = custom_data(components(&full_item)).expect("preexisting custom data remains");
    assert_eq!(restored.get_string(key("owner")).unwrap(), key("server"));
    assert!(restored.get(key(MARKER)).is_none());
}

#[test]
fn nested_stack_rewrite_records_and_restores_inconvertible_components() {
    let native_world = world(version::V_26_3);
    let world = world(version::V_1_21_4);
    let native = stack(DIAMOND_SWORD, vec![native_component(DataComponent::AttackAnimation, vec![1, 6])]);
    let mut server_bytes = Vec::new();
    write_item(&mut server_bytes, &native, version::V_26_3, false).unwrap();
    let mut input = server_bytes.as_slice();
    let mut connection = UserConnection::new(21, world.version);
    let client_bytes = rewrite_item_value_with_connection(
        &mut input,
        &native_world.target(),
        &world.target(),
        &hashes(&native),
        &mut connection,
    )
    .unwrap();
    assert!(input.is_empty());

    let mut reader = client_bytes.as_slice();
    let returned = ClientboundItemT::new(world.target()).read(&mut reader).unwrap();
    assert!(reader.is_empty());
    let marker = custom_data(components(&returned)).expect("nested stack carries the per-connection backup marker");
    assert!(marker.get(key(MARKER)).is_some());

    let returned = restore_full_item(&connection, returned, &world.target());
    assert!(has(components(&returned), DataComponent::AttackAnimation, &[1, 6]));
    assert!(
        lacks(components(&returned), DataComponent::CustomData),
        "synthetic CustomData is removed when the source stack had none"
    );
}

fn backup(id: i32) -> ItemBackup {
    ItemBackup {
        server_item_id: id,
        server_has_custom_data: false,
        restore_added: Vec::new(),
        restore_added_hashes: Vec::new(),
        restore_removed: Vec::new(),
        remove_server_added: Vec::new(),
        remove_server_removed: Vec::new(),
    }
}

#[test]
fn the_backup_cache_is_bounded_and_forgets_what_collides() {
    let mut cache = ItemBackupCache::new();
    for hash in 0..CACHE_LIMIT as i32 + 5 {
        cache.insert(1, hash, backup(hash));
    }
    assert!(cache.get(1, 0).is_none(), "the oldest rows make room");
    assert_eq!(cache.get(1, CACHE_LIMIT as i32).map(|found| found.server_item_id), Some(CACHE_LIMIT as i32));
    cache.insert(1, 500, backup(7));
    assert!(cache.get(1, 500).is_none(), "two stacks under one hash are not told apart");
}

#[test]
fn backups_list_what_was_lost_in_order() {
    let native = stack(
        DIAMOND_SWORD,
        vec![
            native_component(DataComponent::InteractAnimation, vec![1, 6]),
            native_component(DataComponent::Damage, var_int_bytes(5)),
            native_component(DataComponent::AttackAnimation, vec![0, 4]),
        ],
    );
    let world = world(version::V_1_20_5);
    let downgraded = StructuredItemRewriter::to_version(&native, &world.target());
    let backup = build_backup(&native, &downgraded, &hashes(&native), &world.target()).unwrap();
    let lost: Vec<i32> = backup.restore_added.iter().map(|component| component.id).collect();
    let mut expected =
        vec![native_id(DataComponent::InteractAnimation), native_id(DataComponent::AttackAnimation)];
    expected.sort_unstable();
    assert_eq!(lost, expected);
    assert_eq!(backup.server_item_id, DIAMOND_SWORD);
}

#[test]
fn component_ids_tell_components_apart() {
    let cat = catalog();
    for (id, component) in COMPONENTS.iter().enumerate() {
        assert_eq!(cat.component_id(*component), id as i32);
        assert_eq!(cat.component(id as i32), Some(*component));
    }
    assert_eq!(cat.component(-1), None);
}

#[test]
fn a_model_that_no_int_equals_is_not_lowered() {
    let payload = [1, 0x4f, 0, 0, 0, 0, 0, 0];
    assert_eq!(legacy_custom_model_data(&payload), None);
    let payload = [1, 0xcf, 0, 0, 0, 0, 0, 0];
    assert_eq!(legacy_custom_model_data(&payload), Some(i32::MIN));
}

#[test]
fn models_that_a_float_holds_come_back() {
    for model in [0, 1, -1, 7_654_321, 1 << 24, -(1 << 24)] {
        assert_eq!(legacy_custom_model_data(&model_payload(model)), Some(model));
    }
}

// --- the NBT form -------------------------------------------------------------------------

#[test]
fn sweeping_is_renamed_in_both_directions() {
    assert_eq!(legacy_enchantment_name(key("sweeping_edge"), version::V_1_20), Some(key("sweeping")));
    let cat = catalog();
    let found = native_enchantment(&cat, key("minecraft:sweeping")).unwrap();
    assert_eq!(cat.enchantments[found as usize], key("sweeping_edge"));
}

#[test]
fn enchantments_the_client_lacks_are_dropped() {
    assert_eq!(legacy_enchantment_name(key("breach"), version::V_1_20), None);
    assert_eq!(legacy_enchantment_name(key("sharpness"), version::V_1_16_2), Some(key("sharpness")));
}

#[test]
fn swift_sneak_starts_at_1_19() {
    assert_eq!(legacy_enchantment_name(key("swift_sneak"), version::V_1_18_2), None);
    assert_eq!(legacy_enchantment_name(key("swift_sneak"), version::V_1_19), Some(key("swift_sneak")));
}

fn attribute(name: &str) -> i32 {
    catalog().attributes.iter().position(|known| known == name.as_bytes()).unwrap() as i32
}

#[test]
fn attribute_names_are_the_version_s_own() {
    let cat = catalog();
    assert_eq!(
        legacy_attribute_name(&cat, attribute("max_health"), version::V_1_16_2),
        Some("generic.max_health")
    );
    assert_eq!(
        legacy_attribute_name(&cat, attribute("jump_strength"), version::V_1_20),
        Some("horse.jump_strength")
    );
    assert_eq!(legacy_attribute_name(&cat, attribute("max_absorption"), version::V_1_20), None);
    assert_eq!(
        legacy_attribute_name(&cat, attribute("max_absorption"), version::V_1_20_2),
        Some("generic.max_absorption")
    );
}

#[test]
fn potions_added_in_1_21_have_no_name_here() {
    let cat = catalog();
    assert_eq!(legacy_potion_name(&cat, 1, version::V_1_20), None);
    assert_eq!(legacy_potion_name(&cat, 0, version::V_1_20).unwrap(), key("minecraft:healing"));
}

fn from_nbt(nbt: &NbtCompound, world: &World) -> Vec<ItemComponent> {
    nbt_to_components(nbt, world.version, &world.texts, &world.cat)
}

fn number(nbt: &NbtCompound, name: &str) -> Option<i32> {
    nbt.get(key(name)).and_then(|tag| tag.extract_int_like())
}

#[test]
fn unknown_tags_round_trip_through_custom_data() {
    let world = world(version::V_1_16_2);
    let mut nbt = NbtCompound::new();
    nbt.put_int(key("HideFlags"), 63);
    nbt.put_int(key("Damage"), 3);
    let back = components_to_nbt(&from_nbt(&nbt, &world), &world.target()).unwrap();
    assert_eq!(number(&back, "HideFlags"), Some(63));
    assert_eq!(back.get_int(key("Damage")), Some(3));
}

#[test]
fn carried_tags_come_back_each_name_once() {
    let world = world(version::V_1_16_2);
    let mut nbt = NbtCompound::new();
    nbt.put_int(key("plugin:level"), 7);
    nbt.put_int(key("plugin:rank"), 8);
    let back = components_to_nbt(&from_nbt(&nbt, &world), &world.target()).unwrap();
    assert_eq!(back.entries.len(), 2);
    assert_eq!(back.get_int(key("plugin:level")), Some(7));
    assert_eq!(back.get_int(key("plugin:rank")), Some(8));
    assert_eq!(back.entries[0].name, key("plugin:level"));

    // A name that occurs twice keeps its first place and its last tag.
    nbt.entries.push(NbtEntry { name: key("plugin:level").to_vec(), tag: nbt::new_int_tag(9) });
    let back = components_to_nbt(&from_nbt(&nbt, &world), &world.target()).unwrap();
    assert_eq!(back.entries.len(), 2);
    assert_eq!(back.entries[0].name, key("plugin:level"));
    assert_eq!(back.get_int(key("plugin:level")), Some(9));
}

#[test]
fn adventure_predicates_round_trip_with_legacy_hide_flags() {
    let world = world(version::V_1_16_2);
    let mut nbt = NbtCompound::new();
    nbt.put_list(key("CanPlaceOn"), &vec![nbt::new_string_tag(key("minecraft:stone[axis=y]"))]);
    nbt.put_list(key("CanDestroy"), &vec![nbt::new_string_tag(key("#minecraft:mineable/pickaxe"))]);
    // The flags of the two components move to the tooltip; the others stay.
    nbt.put_byte(key("HideFlags"), 63);

    let components = from_nbt(&nbt, &world);
    assert!(!lacks(&components, DataComponent::CanPlaceOn));
    assert!(!lacks(&components, DataComponent::CanBreak));
    let tooltip = find(&components, DataComponent::TooltipDisplay, &world.cat)
        .expect("legacy HideFlags become per-component tooltip visibility");
    let mut tooltip_data = tooltip;
    assert_eq!(wire::get_bool(&mut tooltip_data), Ok(false));
    assert_eq!(wire::get_var_int(&mut tooltip_data), Ok(2));
    let hidden = [wire::get_var_int(&mut tooltip_data).unwrap(), wire::get_var_int(&mut tooltip_data).unwrap()];
    assert!(hidden.contains(&native_id(DataComponent::CanPlaceOn)));
    assert!(hidden.contains(&native_id(DataComponent::CanBreak)));

    let back = components_to_nbt(&components, &world.target()).unwrap();
    assert_eq!(number(&back, "HideFlags"), Some(63));
    let first = |name: &str| back.get_list(key(name)).unwrap()[0].extract_string().unwrap();
    assert_eq!(first("CanPlaceOn"), key("minecraft:stone[axis=y]"));
    assert_eq!(first("CanDestroy"), key("#minecraft:mineable/pickaxe"));
}

#[test]
fn legacy_adventure_ranges_are_dropped_instead_of_widened() {
    let world = world(version::V_1_16_2);
    let mut payload = vec![1, 1, 2]; // one predicate, with a set of one block
    wire::write_var_int(&mut payload, entry(version::V_26_3, "block", "stone"));
    payload.extend([1, 1]); // one property
    wire::write_str(&mut payload, key("axis"));
    payload.extend([0, 1]); // a range, with a lower bound
    wire::write_str(&mut payload, key("x"));
    payload.extend([0, 0, 0, 0]); // no upper bound, tag, components or matchers

    let rewritten = legacy_block_predicates(&payload, &world.ids, &world.cat).unwrap();
    assert!(
        rewritten.is_empty(),
        "dropping an unrepresentable range must not allow every state of the block"
    );
}

#[test]
fn custom_potion_effects_round_trip_through_legacy_nbt() {
    let world = world(version::V_1_16_2);
    let mut data = vec![0, 0]; // no base potion or custom color
    data.extend(var_int_bytes(1)); // one custom effect
    data.extend(var_int_bytes(entry(version::V_26_3, "mob_effect", "speed")));
    data.extend(var_int_bytes(1)); // amplifier
    data.extend(var_int_bytes(1200)); // duration
    data.extend([0, 1, 1, 0]); // ambient, particles, icon, no hidden effect
    data.push(0); // no custom potion name

    let added = vec![native_component(DataComponent::PotionContents, data.clone())];
    let nbt = components_to_nbt(&added, &world.target()).unwrap();
    let effect = nbt.get_list(key("CustomPotionEffects")).unwrap()[0].extract_compound().unwrap();
    assert_eq!(number(&effect, "Id"), Some(entry(world.version, "mob_effect", "speed")));
    let restored = from_nbt(&nbt, &world);
    assert!(has(&restored, DataComponent::PotionContents, &data));
}

#[test]
fn charged_projectiles_become_legacy_crossbow_nbt_items() {
    let world = world(version::V_1_16_2);
    let mut payload = var_int_bytes(1);
    write_template(&mut payload, &stack(ARROW, Vec::new())).unwrap();
    let added = vec![native_component(DataComponent::ChargedProjectiles, payload)];
    let nbt = components_to_nbt(&added, &world.target()).unwrap();
    assert_eq!(nbt.get_bool(key("Charged")), Some(true));
    let projectile = nbt.get_list(key("ChargedProjectiles")).unwrap()[0].extract_compound().unwrap();
    assert_eq!(projectile.get_string(key("id")).unwrap(), key("minecraft:arrow"));
    assert_eq!(number(&projectile, "Count"), Some(1));
}

#[test]
fn unknown_display_children_survive_legacy_component_round_trips() {
    let world = world(version::V_1_16_2);
    let mut display = NbtCompound::new();
    display.put_string(key("Name"), &json("Display name"));
    display.put_list(key("Lore"), &vec![nbt::new_string_tag(&json("Lore line"))]);
    display.put_int(key("color"), 0x12_3456);
    display.put_int(key("plugin_marker"), 99);
    let mut nbt = NbtCompound::new();
    nbt.put_compound(key("display"), &display);

    let back = components_to_nbt(&from_nbt(&nbt, &world), &world.target()).unwrap();
    let display = back.get_compound(key("display")).unwrap();
    assert_eq!(display.get_int(key("plugin_marker")), Some(99));
    assert_eq!(display.get_string(key("Name")).unwrap(), json("Display name"));
    assert_eq!(display.get_list(key("Lore")).unwrap()[0].extract_string().unwrap(), json("Lore line"));
    assert_eq!(display.get_int(key("color")), Some(0x12_3456));
}

#[test]
fn enchantments_round_trip_through_the_nbt_form() {
    let world = world(version::V_1_16_2);
    let added = vec![native_component(DataComponent::Enchantments, vec![1, SHARPNESS as u8, 4])];
    let nbt = components_to_nbt(&added, &world.target()).unwrap();
    let row = nbt.get_list(key("Enchantments")).unwrap()[0].extract_compound().unwrap();
    assert_eq!(row.get_string(key("id")).unwrap(), key("minecraft:sharpness"));
    assert_eq!(number(&row, "lvl"), Some(4));

    let back = from_nbt(&nbt, &world);
    let enchantments = find(&back, DataComponent::Enchantments, &world.cat).unwrap();
    assert_eq!(var_int_pairs(enchantments).unwrap(), vec![(SHARPNESS, 4)]);
}

#[test]
fn enchantments_missing_from_1_20_3_use_vias_display_name_lore() {
    let world = world(version::V_1_20_3);
    let added = vec![native_component(DataComponent::Enchantments, vec![1, DENSITY as u8, 3])];
    let nbt = components_to_nbt(&added, &world.target())
        .expect("the unsupported enchantment still has display lore");
    assert!(nbt.get_list(key("Enchantments")).is_none());
    let lore = nbt.get_compound(key("display")).unwrap().get_list(key("Lore")).unwrap();
    let line = String::from_utf8(lore[0].extract_string().unwrap()).unwrap();
    assert!(line.contains("Density III"));
}

#[test]
fn tooltip_lines_are_gray_json_from_1_14_on() {
    assert_eq!(enchantment_lore_line(key("Lunge"), 4, version::V_1_13), key("Lunge IV"));
    assert_eq!(
        enchantment_lore_line(key("Lunge"), 12, version::V_1_14),
        key("{\"color\":\"gray\",\"text\":\"Lunge 12\"}")
    );
}

#[test]
fn armor_trim_registry_values_round_trip_through_legacy_nbt() {
    let world = world(version::V_1_20_3);
    let added = vec![native_component(DataComponent::Trim, trim(version::V_26_3))];
    let nbt = components_to_nbt(&added, &world.target()).unwrap();
    let row = nbt.get_compound(key("Trim")).unwrap();
    assert_eq!(row.get_string(key("material")).unwrap(), key("minecraft:iron"));
    assert_eq!(row.get_string(key("pattern")).unwrap(), key("minecraft:coast"));

    let back = from_nbt(&nbt, &world);
    assert_eq!(find(&back, DataComponent::Trim, &world.cat).unwrap(), trim(version::V_26_3));
}

#[test]
fn goat_horn_instrument_round_trips_through_legacy_nbt() {
    let world = world(version::V_1_19);
    let added = vec![native_component(DataComponent::Instrument, horn(version::V_26_3))];
    let nbt = components_to_nbt(&added, &world.target()).unwrap();
    assert_eq!(nbt.get_string(key("instrument")).unwrap(), key("minecraft:ponder_goat_horn"));

    let back = from_nbt(&nbt, &world);
    assert_eq!(find(&back, DataComponent::Instrument, &world.cat).unwrap(), horn(version::V_26_3));
    assert!(
        find(&back, DataComponent::CustomData, &world.cat).is_none(),
        "recognized instrument is not custom data"
    );
}

fn damage_modifier(operation: i32, slot: i32) -> Modifier {
    Modifier {
        attribute: attribute("attack_damage"),
        id: key("minecraft:base_attack_damage").to_vec(),
        amount: 3.0f64.to_bits(),
        operation,
        slot,
    }
}

#[test]
fn a_group_slot_modifier_is_left_out() {
    // The armour group slot.
    assert!(legacy_attribute_entry(&damage_modifier(0, 8), 0, version::V_1_20, &catalog()).is_none());
}

#[test]
fn an_attribute_entry_has_the_1_16_uuid_array() {
    let row = legacy_attribute_entry(&damage_modifier(1, 1), 0, version::V_1_16_2, &catalog()).unwrap();
    assert_eq!(row.get_string(key("AttributeName")).unwrap(), key("generic.attack_damage"));
    assert_eq!(row.get_string(key("Slot")).unwrap(), key("mainhand"));
    assert_eq!(row.get_int(key("Operation")), Some(1));
    assert_eq!(row.get_int_array(key("UUID")).map(|words| words.len()), Some(4));
}

#[test]
fn custom_model_data_needs_a_single_whole_float() {
    assert_eq!(legacy_custom_model_data(&single_model(7.0)), Some(7));
    assert_eq!(legacy_custom_model_data(&single_model(7.5)), None);
}

#[test]
fn heads_keep_their_owners_uuid_as_text_before_1_16() {
    let profile = Profile {
        name: Some(key("steve").to_vec()),
        id: Some((0x0011_2233, 0x4455_6677, -0x7766_5545, -0x3322_1101)),
        properties: vec![Property { name: key("textures").to_vec(), value: key("abc").to_vec(), signature: None }],
    };
    let owner = legacy_skull_owner(&profile, version::V_1_15).unwrap();
    assert_eq!(owner.get_string(key("Id")).unwrap(), key("00112233-4455-6677-8899-aabbccddeeff"));
    assert_eq!(owner.get_string(key("Name")).unwrap(), key("steve"));
    let owner = legacy_skull_owner(&profile, version::V_1_16_2).unwrap();
    assert_eq!(owner.get_int_array(key("Id")).unwrap()[0], 0x0011_2233);

    let back = profile_from_skull_owner(&owner.to_tag()).unwrap();
    assert_eq!(back.id, profile.id);
    assert_eq!(back.name, profile.name);
    let written = write_profile(&profile);
    let read = read_profile(&written).unwrap();
    assert_eq!(read.id, profile.id);
    assert_eq!(read.properties.len(), 1);
}

// --- texts --------------------------------------------------------------------------------

fn text_with(hover: HoverEvent) -> TextNode {
    TextNode { content: vec![], arguments: Vec::new(), hover: Some(hover), extra: Vec::new() }
}

#[test]
fn entity_hover_uses_the_via_backwards_standin_name() {
    let world = world(version::V_1_21_9);
    let tables = HoverTables {
        items: texts(&["stick"]),
        entities: texts(&["bee", "squid", "nautilus"]),
        stand_ins: vec![(2, 1)],
    };
    let component = text_with(HoverEvent::ShowEntity { id: key("minecraft:nautilus").to_vec(), name: None });
    let sanitized = sanitize_base(&component, &tables, &world.ids);
    let Some(HoverEvent::ShowEntity { id, .. }) = &sanitized.hover else {
        panic!("the mapped entity hover should remain visible");
    };
    assert_eq!(id, key("minecraft:squid"));
}

#[test]
fn texts_are_cut_down_under_their_own_tags() {
    let world = world(version::V_1_21_9);
    let tables = HoverTables { items: texts(&["stick"]), entities: texts(&["bee"]), stand_ins: Vec::new() };
    let unknown = text_with(HoverEvent::ShowItem(key("minecraft:no_such_item").to_vec()));
    let holder = TextNode { content: vec![b'x'], arguments: Vec::new(), hover: None, extra: vec![unknown] };
    let spoken = vec![
        SpokenText { tag: string_tag("one"), text: holder },
        SpokenText { tag: string_tag("two"), text: text_with(HoverEvent::ShowText(Vec::new())) },
    ];
    let shown = readable_texts(&spoken, &tables, &world.ids);
    assert_eq!(shown.len(), 2);
    assert_eq!(shown[0].tag, string_tag("one"));
    assert_eq!(shown[0].text.content, vec![b'x']);
    assert!(shown[0].text.extra[0].hover.is_none());
    assert_eq!(shown[1].tag, string_tag("two"));
    assert!(matches!(&shown[1].text.hover, Some(HoverEvent::ShowText(parts)) if parts.is_empty()));
}

#[test]
fn modifiers_of_one_name_have_ids_of_their_own() {
    let ids: Vec<(u64, u64)> = (0..64).map(|index| legacy_modifier_uuid(key("armor"), index)).collect();
    for (i, id) in ids.iter().enumerate() {
        assert!(!ids[..i].contains(id));
    }
}

#[test]
fn a_stack_without_components_has_no_nbt() {
    let world = world(version::V_1_20_3);
    assert!(components_to_nbt(&Vec::new(), &world.target()).is_none());
}
