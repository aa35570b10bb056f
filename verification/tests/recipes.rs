use java_multiversion::catalog::{Catalog, DataComponent, Layout};
use java_multiversion::connection::UserConnection;
use java_multiversion::item_backup::ComponentHash;
use java_multiversion::mapping::{ComposedMappings, IdMapping};
use java_multiversion::nbt;
use java_multiversion::recipe_book::{
    crafting_requirements, holder_set, recipe_display, slot_display, SLOT_DISPLAY_ANY_FUEL, SLOT_DISPLAY_COMPOSITE, SLOT_DISPLAY_DYED, SLOT_DISPLAY_EMPTY,
    SLOT_DISPLAY_ITEM, SLOT_DISPLAY_ITEM_STACK, SLOT_DISPLAY_ONLY_WITH_COMPONENT, SLOT_DISPLAY_SMITHING_TRIM,
    SLOT_DISPLAY_TAG, SLOT_DISPLAY_WITH_ANY_POTION, SLOT_DISPLAY_WITH_REMAINDER,
};
use java_multiversion::recipe_legacy::{
    parse_synthetic_recipe_id, read_recipe, read_slot_display, write_recipe_definition, Placed, Recipe, RecipeData,
};
use java_multiversion::recipe_packets::{
    rewrite_legacy_place_recipe, rewrite_legacy_recipe_book_remove, rewrite_legacy_recipe_book_settings,
    rewrite_legacy_seen_recipe, rewrite_place_ghost_recipe, rewrite_recipe_book_add, rewrite_update_recipes, Outcome,
};
use java_multiversion::shape::{pair, Shape};
use java_multiversion::target::{Target, Texts};
use java_multiversion::types::{get_nbt_stack, get_template, write_template, Item, ItemComponent};
use java_multiversion::version;
use java_multiversion::wire;
use java_multiversion::wire::TranslateError;

const TARGET: u32 = version::V_26_2;
const DIAMOND_SWORD: i32 = 900;
const UNMAPPED: i32 = 70_000;
const RECIPE_BOOK_SETTINGS: usize = 8;

const DAMAGE: i32 = 1;
const ATTACK_ANIMATION: i32 = 2;
const CUSHION_COLOR: i32 = 4;

struct World {
    ids: ComposedMappings,
    cat: Catalog,
    texts: Texts,
}

fn table(size: u32, map: impl Fn(u32) -> Option<u32>) -> IdMapping {
    IdMapping { slots: (0..size).map(map).collect() }
}

fn shifted(size: u32) -> IdMapping {
    table(size, |id| Some(id + 1))
}

/// The tables of a client: items and components are one off, and before 26.1 some
/// slot displays and components are missing.
fn world(version: u32) -> World {
    let displays = if version >= version::V_26_1 {
        table(11, |id| Some(if id == 0 { 0 } else { 11 - id }))
    } else {
        IdMapping {
            slots: vec![
                Some(0),
                Some(1),
                None,
                None,
                Some(2),
                Some(3),
                Some(4),
                None,
                Some(5),
                Some(6),
                Some(7),
            ],
        }
    };
    World {
        ids: ComposedMappings {
            items: shifted(2000),
            blocks: shifted(10),
            block_states: shifted(10),
            entities: shifted(10),
            blockentities: shifted(10),
            enchantments: shifted(10),
            attributes: shifted(10),
            paintings: shifted(10),
            sounds: shifted(10),
            particles: shifted(10),
            recipe_serializers: shifted(30),
            slot_displays: displays,
            data_component_type: table(5, |id| if id as i32 == CUSHION_COLOR { None } else { Some(id + 1) }),
            custom_model_data: Vec::new(),
        },
        cat: Catalog {
            components: vec![
                DataComponent::CustomData,
                DataComponent::Damage,
                DataComponent::AttackAnimation,
                DataComponent::InteractAnimation,
                DataComponent::CushionColor,
            ],
            layouts: vec![
                Layout { component: 0, since: version::V_1_20_5, shape: Shape::Nbt },
                Layout { component: DAMAGE, since: version::V_1_20_5, shape: Shape::VarInt },
                Layout {
                    component: ATTACK_ANIMATION,
                    since: version::V_26_2,
                    shape: pair(Shape::VarInt, Shape::VarInt),
                },
            ],
            registries: Vec::new(),
            enchantments: Vec::new(),
            potions: Vec::new(),
            attributes: Vec::new(),
            items: Vec::new(),
            enchantment_names: Vec::new(),
            enchantments_1_20_5: shifted(1),
            block_entities: Vec::new(),
            particles: Vec::new(),
            sounds: Vec::new(),
        },
        texts: Texts { rendered: Vec::new(), parsed: Vec::new() },
    }
}

impl World {
    fn target(&self, version: u32) -> Target<'_> {
        Target { version, ids: &self.ids, cat: &self.cat, texts: &self.texts }
    }

    fn slot(&self, kind: i32) -> i32 {
        self.ids.slot_displays.map_id(kind).unwrap()
    }
}

struct Reader<'a>(&'a [u8]);

impl<'a> Reader<'a> {
    fn var_int(&mut self) -> i32 {
        wire::get_var_int(&mut self.0).unwrap()
    }

    fn string(&mut self) -> String {
        String::from_utf8(wire::get_str(&mut self.0).unwrap().to_vec()).unwrap()
    }

    fn boolean(&mut self) -> bool {
        wire::get_bool(&mut self.0).unwrap()
    }

    fn byte(&mut self) -> u8 {
        wire::get_u8(&mut self.0).unwrap()
    }

    fn is_empty(&self) -> bool {
        self.0.is_empty()
    }
}

fn push_var_int(payload: &mut Vec<u8>, value: i32) {
    wire::write_var_int(payload, value);
}

fn push_item_display(payload: &mut Vec<u8>, item_id: i32) {
    push_var_int(payload, SLOT_DISPLAY_ITEM);
    push_var_int(payload, item_id);
}

fn push_empty_display(payload: &mut Vec<u8>) {
    push_var_int(payload, SLOT_DISPLAY_EMPTY);
}

fn recipe_payload(item_id: i32) -> Vec<u8> {
    let mut payload = Vec::new();
    push_var_int(&mut payload, 1); // entries
    push_var_int(&mut payload, 17); // display id
    push_var_int(&mut payload, 0); // shapeless
    push_var_int(&mut payload, 1); // ingredients
    push_var_int(&mut payload, SLOT_DISPLAY_COMPOSITE);
    push_var_int(&mut payload, 2); // composite children
    push_item_display(&mut payload, item_id);
    push_item_display(&mut payload, item_id);

    push_var_int(&mut payload, SLOT_DISPLAY_ITEM_STACK);
    write_template(
        &mut payload,
        &Item::Structured {
            count: 3,
            id: item_id,
            added: vec![ItemComponent { id: ATTACK_ANIMATION, data: vec![1, 2] }],
            removed: Vec::new(),
        },
    )
    .unwrap();
    push_item_display(&mut payload, item_id); // station
    push_var_int(&mut payload, 0); // no group
    push_var_int(&mut payload, 3); // category
    wire::write_bool(&mut payload, true);
    push_var_int(&mut payload, 2); // requirement entries
    push_var_int(&mut payload, 2); // one direct item id
    push_var_int(&mut payload, item_id);
    push_var_int(&mut payload, 0); // named tag
    wire::write_str(&mut payload, "minecraft:stone_crafting_materials".as_bytes());
    payload.push(3); // notification + highlight
    wire::write_bool(&mut payload, true); // replace
    payload
}

fn no_hashes() -> Vec<ComponentHash> {
    Vec::new()
}

fn passed(outcome: Outcome) -> Vec<u8> {
    match outcome {
        Outcome::Passed(payload) => payload,
        _ => panic!("the packet is passed on"),
    }
}

fn add(payload: &[u8], version: u32, world: &World) -> Result<Outcome, TranslateError> {
    let mut connection = UserConnection::new(1, version);
    let mut r = payload;
    let outcome = rewrite_recipe_book_add(
        &mut connection,
        &mut r,
        &no_hashes(),
        version::V_26_3,
        &world.target(version),
    );
    if outcome.is_ok() {
        assert!(r.is_empty());
    }
    outcome
}

#[test]
fn recipe_displays_rewrite_nested_item_ids_components_and_holder_sets() {
    let world = world(TARGET);
    let target_item = DIAMOND_SWORD + 1;
    let translated = passed(add(&recipe_payload(DIAMOND_SWORD), TARGET, &world).unwrap());

    let mut cursor = Reader(&translated);
    assert_eq!(cursor.var_int(), 1);
    assert_eq!(cursor.var_int(), 17);
    assert_eq!(cursor.var_int(), 0);
    assert_eq!(cursor.var_int(), 1);
    assert_eq!(cursor.var_int(), world.slot(SLOT_DISPLAY_COMPOSITE));
    assert_eq!(cursor.var_int(), 2);
    for _ in 0..2 {
        assert_eq!(cursor.var_int(), world.slot(SLOT_DISPLAY_ITEM));
        assert_eq!(cursor.var_int(), target_item);
    }
    assert_eq!(cursor.var_int(), world.slot(SLOT_DISPLAY_ITEM_STACK));
    let Item::Structured { id, added, count, .. } = get_template(&mut cursor.0, &world.cat).unwrap() else {
        panic!("expected a translated structured result item");
    };
    assert_eq!(id, target_item);
    assert_eq!(count, 3);
    assert!(added.iter().any(|component| component.id == ATTACK_ANIMATION));

    assert_eq!(cursor.var_int(), world.slot(SLOT_DISPLAY_ITEM));
    assert_eq!(cursor.var_int(), target_item);
    assert_eq!(cursor.var_int(), 0);
    assert_eq!(cursor.var_int(), 3);
    assert!(cursor.boolean());
    assert_eq!(cursor.var_int(), 2);
    assert_eq!(cursor.var_int(), 2);
    assert_eq!(cursor.var_int(), target_item);
    assert_eq!(cursor.var_int(), 0);
    assert_eq!(cursor.string(), "minecraft:stone_crafting_materials");
    assert_eq!(cursor.byte(), 3);
    assert!(cursor.boolean(), "replace flag is preserved");
    assert!(cursor.is_empty());
}

#[test]
fn recipe_book_add_keeps_the_trailing_replace_flag() {
    let world = world(TARGET);
    let mut payload = Vec::new();
    push_var_int(&mut payload, 0);
    wire::write_bool(&mut payload, false);
    let translated = passed(add(&payload, TARGET, &world).unwrap());
    let mut read = Reader(&translated);
    assert_eq!(read.var_int(), 0);
    assert!(!read.boolean());
    assert!(read.is_empty());
}

#[test]
fn recipe_stacks_lose_newer_components_for_1_21_11() {
    let version = version::V_1_21_11;
    let world = world(version);
    let target_item = DIAMOND_SWORD + 1;
    let translated = passed(add(&recipe_payload(DIAMOND_SWORD), version, &world).unwrap());

    let mut cursor = Reader(&translated);
    assert_eq!(cursor.var_int(), 1);
    assert_eq!(cursor.var_int(), 17);
    assert_eq!(cursor.var_int(), 0);
    assert_eq!(cursor.var_int(), 1);
    assert_eq!(cursor.var_int(), world.slot(SLOT_DISPLAY_COMPOSITE));
    assert_eq!(cursor.var_int(), 2);
    for _ in 0..2 {
        assert_eq!(cursor.var_int(), world.slot(SLOT_DISPLAY_ITEM));
        assert_eq!(cursor.var_int(), target_item);
    }
    assert_eq!(cursor.var_int(), world.slot(SLOT_DISPLAY_ITEM_STACK));
    // Before 26.1 the count leads.
    assert_eq!(cursor.var_int(), 3);
    assert_eq!(cursor.var_int(), target_item);
    assert_eq!(cursor.var_int(), 0, "the attack animation is not sent to 1.21.11");
    assert_eq!(cursor.var_int(), 0);
    assert_eq!(cursor.var_int(), world.slot(SLOT_DISPLAY_ITEM));
    assert_eq!(cursor.var_int(), target_item);
    assert_eq!(cursor.var_int(), 0);
    assert_eq!(cursor.var_int(), 3);
    assert!(cursor.boolean());
    assert_eq!(cursor.var_int(), 2);
    assert_eq!(cursor.var_int(), 2);
    assert_eq!(cursor.var_int(), target_item);
    assert_eq!(cursor.var_int(), 0);
    assert_eq!(cursor.string(), "minecraft:stone_crafting_materials");
    assert_eq!(cursor.byte(), 3);
    assert!(cursor.boolean());
    assert!(cursor.is_empty());
}

#[test]
fn items_without_a_row_keep_their_id_in_recipes() {
    let world = world(TARGET);
    let translated = passed(add(&recipe_payload(UNMAPPED), TARGET, &world).unwrap());

    let mut cursor = Reader(&translated);
    assert_eq!(cursor.var_int(), 1);
    assert_eq!(cursor.var_int(), 17);
    assert_eq!(cursor.var_int(), 0);
    assert_eq!(cursor.var_int(), 1);
    assert_eq!(cursor.var_int(), world.slot(SLOT_DISPLAY_COMPOSITE));
    assert_eq!(cursor.var_int(), 2);
    for _ in 0..2 {
        assert_eq!(cursor.var_int(), world.slot(SLOT_DISPLAY_ITEM));
        assert_eq!(cursor.var_int(), UNMAPPED);
    }
    // A whole stack of an item that the client lacks becomes an empty display.
    assert_eq!(cursor.var_int(), world.slot(SLOT_DISPLAY_EMPTY));
    assert_eq!(cursor.var_int(), world.slot(SLOT_DISPLAY_ITEM));
    assert_eq!(cursor.var_int(), UNMAPPED);
    assert_eq!(cursor.var_int(), 0);
    assert_eq!(cursor.var_int(), 3);
    assert!(cursor.boolean());
    assert_eq!(cursor.var_int(), 2);
    assert_eq!(cursor.var_int(), 2);
    assert_eq!(cursor.var_int(), UNMAPPED);
    assert_eq!(cursor.var_int(), 0);
    assert_eq!(cursor.string(), "minecraft:stone_crafting_materials");
    assert_eq!(cursor.byte(), 3);
    assert!(cursor.boolean());
    assert!(cursor.is_empty());
}

#[test]
fn recipe_display_packet_is_dropped_before_1_21_2() {
    let version = version::V_1_20_5;
    assert!(add(&[0], version, &world(version)).is_err());
}

#[test]
fn unknown_slot_display_codec_drops_the_whole_recipe_packet() {
    assert!(add(&[1, 0, 0, 1, 99], TARGET, &world(TARGET)).is_err());
}

#[test]
fn update_recipes_rewrites_item_arrays_holders_and_stonecutter_displays() {
    let world = world(TARGET);
    let target_item = DIAMOND_SWORD + 1;
    let mut payload = Vec::new();
    push_var_int(&mut payload, 1); // recipe groups
    wire::write_str(&mut payload, "minecraft:building_blocks".as_bytes());
    push_var_int(&mut payload, 2); // item ID array
    push_var_int(&mut payload, DIAMOND_SWORD);
    push_var_int(&mut payload, UNMAPPED);
    push_var_int(&mut payload, 1); // stonecutter recipes
    push_var_int(&mut payload, 3); // holder: two IDs
    push_var_int(&mut payload, DIAMOND_SWORD);
    push_var_int(&mut payload, UNMAPPED);
    push_item_display(&mut payload, DIAMOND_SWORD);

    let mut connection = UserConnection::new(1, TARGET);
    let mut r = payload.as_slice();
    let translated = passed(
        rewrite_update_recipes(
            &mut connection,
            &mut r,
            &no_hashes(),
            version::V_26_3,
            &world.target(TARGET),
        )
        .unwrap(),
    );
    let mut cursor = Reader(&translated);
    assert_eq!(cursor.var_int(), 1);
    assert_eq!(cursor.string(), "minecraft:building_blocks");
    assert_eq!(cursor.var_int(), 2);
    assert_eq!(cursor.var_int(), target_item);
    assert_eq!(cursor.var_int(), UNMAPPED);
    assert_eq!(cursor.var_int(), 1);
    assert_eq!(cursor.var_int(), 3);
    assert_eq!(cursor.var_int(), target_item);
    assert_eq!(cursor.var_int(), UNMAPPED);
    assert_eq!(cursor.var_int(), world.slot(SLOT_DISPLAY_ITEM));
    assert_eq!(cursor.var_int(), target_item);
    assert!(cursor.is_empty());
}

#[test]
fn place_ghost_recipe_rewrites_container_and_recipe_display() {
    let target = version::V_1_21_11;
    let world = world(target);
    let mut payload = Vec::new();
    push_var_int(&mut payload, 9); // container ID
    push_var_int(&mut payload, 3); // stonecutter display
    for _ in 0..3 {
        push_item_display(&mut payload, DIAMOND_SWORD);
    }
    let mut connection = UserConnection::new(1, target);
    let mut r = payload.as_slice();
    let translated = passed(
        rewrite_place_ghost_recipe(
            &mut connection,
            &mut r,
            &no_hashes(),
            version::V_26_3,
            &world.target(target),
        )
        .unwrap(),
    );
    let mut cursor = Reader(&translated);
    assert_eq!(cursor.var_int(), 9);
    assert_eq!(cursor.var_int(), 3);
    for _ in 0..3 {
        assert_eq!(cursor.var_int(), world.slot(SLOT_DISPLAY_ITEM));
        assert_eq!(cursor.var_int(), DIAMOND_SWORD + 1);
    }
    assert!(cursor.is_empty());
}

#[test]
fn update_and_ghost_recipe_packets_are_dropped_before_recipe_display_support() {
    let target = version::V_1_20_5;
    let world = world(target);
    let mut connection = UserConnection::new(1, target);
    let payload = [0u8];
    let update = rewrite_update_recipes(
        &mut connection,
        &mut payload.as_slice(),
        &no_hashes(),
        version::V_26_3,
        &world.target(target),
    );
    assert!(!matches!(update, Ok(Outcome::Passed(_))));
    let ghost = rewrite_place_ghost_recipe(
        &mut connection,
        &mut payload.as_slice(),
        &no_hashes(),
        version::V_26_3,
        &world.target(target),
    );
    assert!(!matches!(ghost, Ok(Outcome::Passed(_))));
}

#[test]
fn update_and_ghost_recipe_handlers_reject_non_26_3_source_layouts() {
    let world = world(TARGET);
    let mut connection = UserConnection::new(1, TARGET);
    let payload: [u8; 0] = [];
    assert!(matches!(
        rewrite_update_recipes(
            &mut connection,
            &mut payload.as_slice(),
            &no_hashes(),
            version::V_26_2,
            &world.target(TARGET),
        ),
        Err(TranslateError::SourceLayout)
    ));
    assert!(matches!(
        rewrite_place_ghost_recipe(
            &mut connection,
            &mut payload.as_slice(),
            &no_hashes(),
            version::V_26_2,
            &world.target(TARGET),
        ),
        Err(TranslateError::SourceLayout)
    ));
}

fn translate_slot_display(payload: &[u8], version: u32, world: &World) -> Vec<u8> {
    let mut connection = UserConnection::new(1, version);
    let mut r = payload;
    let mut out = Vec::new();
    slot_display(&mut connection, &mut r, &mut out, true, &no_hashes(), &world.target(version)).unwrap();
    assert!(r.is_empty());
    out
}

#[test]
fn with_any_potion_rewrites_its_nested_display() {
    let world = world(TARGET);
    let mut payload = Vec::new();
    push_var_int(&mut payload, SLOT_DISPLAY_WITH_ANY_POTION);
    push_item_display(&mut payload, DIAMOND_SWORD);

    let translated = translate_slot_display(&payload, TARGET, &world);
    let mut cursor = Reader(&translated);
    assert_eq!(cursor.var_int(), world.slot(SLOT_DISPLAY_WITH_ANY_POTION));
    assert_eq!(cursor.var_int(), world.slot(SLOT_DISPLAY_ITEM));
    assert_eq!(cursor.var_int(), DIAMOND_SWORD + 1);
    assert!(cursor.is_empty());
}

#[test]
fn only_with_component_rewrites_nested_item_and_component_ids() {
    let world = world(TARGET);
    let target_component = world.ids.data_component_type.map_id(DAMAGE).unwrap();
    let mut payload = Vec::new();
    push_var_int(&mut payload, SLOT_DISPLAY_ONLY_WITH_COMPONENT);
    push_item_display(&mut payload, DIAMOND_SWORD);
    push_var_int(&mut payload, DAMAGE);

    let translated = translate_slot_display(&payload, TARGET, &world);
    let mut cursor = Reader(&translated);
    assert_eq!(cursor.var_int(), world.slot(SLOT_DISPLAY_ONLY_WITH_COMPONENT));
    assert_eq!(cursor.var_int(), world.slot(SLOT_DISPLAY_ITEM));
    assert_eq!(cursor.var_int(), DIAMOND_SWORD + 1);
    assert_eq!(cursor.var_int(), target_component);
    assert!(cursor.is_empty());
}

#[test]
fn only_with_component_uses_empty_component_id_when_target_lacks_it() {
    let world = world(TARGET);
    assert!(world.ids.data_component_type.map_id(CUSHION_COLOR).is_none());
    let mut payload = Vec::new();
    push_var_int(&mut payload, SLOT_DISPLAY_ONLY_WITH_COMPONENT);
    push_empty_display(&mut payload);
    push_var_int(&mut payload, CUSHION_COLOR);

    let translated = translate_slot_display(&payload, TARGET, &world);
    let mut cursor = Reader(&translated);
    assert_eq!(cursor.var_int(), world.slot(SLOT_DISPLAY_ONLY_WITH_COMPONENT));
    assert_eq!(cursor.var_int(), SLOT_DISPLAY_EMPTY);
    assert_eq!(cursor.var_int(), 0);
    assert!(cursor.is_empty());
}

#[test]
fn tag_holder_sets_downgrade_to_string_and_direct_ids_use_the_via_placeholder() {
    let target = version::V_1_21_11;
    let world = world(target);
    let mut named_payload = Vec::new();
    push_var_int(&mut named_payload, SLOT_DISPLAY_TAG);
    push_var_int(&mut named_payload, 0); // HolderSet tag selector
    wire::write_str(&mut named_payload, "minecraft:stone_crafting_materials".as_bytes());

    let translated = translate_slot_display(&named_payload, target, &world);
    let mut cursor = Reader(&translated);
    assert_eq!(cursor.var_int(), world.slot(SLOT_DISPLAY_TAG));
    assert_eq!(cursor.string(), "minecraft:stone_crafting_materials");
    assert!(cursor.is_empty());

    let mut ids_payload = Vec::new();
    push_var_int(&mut ids_payload, SLOT_DISPLAY_TAG);
    push_var_int(&mut ids_payload, 2); // one explicit item id plus selector
    push_var_int(&mut ids_payload, 1_234);
    let translated = translate_slot_display(&ids_payload, target, &world);
    let mut cursor = Reader(&translated);
    assert_eq!(cursor.var_int(), world.slot(SLOT_DISPLAY_TAG));
    assert_eq!(cursor.string(), "planks");
    assert!(cursor.is_empty());
}

#[test]
fn dyed_rewrites_both_nested_displays() {
    let world = world(TARGET);
    let mut payload = Vec::new();
    push_var_int(&mut payload, SLOT_DISPLAY_DYED);
    push_item_display(&mut payload, DIAMOND_SWORD);
    push_var_int(&mut payload, SLOT_DISPLAY_ANY_FUEL);

    let translated = translate_slot_display(&payload, TARGET, &world);
    let mut cursor = Reader(&translated);
    assert_eq!(cursor.var_int(), world.slot(SLOT_DISPLAY_DYED));
    assert_eq!(cursor.var_int(), world.slot(SLOT_DISPLAY_ITEM));
    assert_eq!(cursor.var_int(), DIAMOND_SWORD + 1);
    assert_eq!(cursor.var_int(), world.slot(SLOT_DISPLAY_ANY_FUEL));
    assert!(cursor.is_empty());
}

#[test]
fn smithing_trim_rewrites_base_and_material_and_preserves_pattern_payload() {
    let target = version::V_1_21_11;
    let world = world(target);
    let mut payload = Vec::new();
    push_var_int(&mut payload, SLOT_DISPLAY_SMITHING_TRIM);
    push_empty_display(&mut payload);
    push_var_int(&mut payload, SLOT_DISPLAY_ANY_FUEL);
    wire::write_str(&mut payload, "minecraft:spire".as_bytes());
    let mut description = Vec::new();
    nbt::write_nbt(&mut description, &nbt::new_string_tag("trim description".as_bytes()), false);
    payload.extend_from_slice(&description);
    wire::write_bool(&mut payload, true);

    let translated = translate_slot_display(&payload, target, &world);
    let mut cursor = Reader(&translated);
    assert_eq!(cursor.var_int(), world.slot(SLOT_DISPLAY_SMITHING_TRIM));
    assert_eq!(cursor.var_int(), SLOT_DISPLAY_EMPTY);
    assert_eq!(cursor.var_int(), world.slot(SLOT_DISPLAY_ANY_FUEL));
    assert_eq!(cursor.string(), "minecraft:spire");
    let text = nbt::get_nbt(&mut cursor.0, false).unwrap().unwrap();
    assert_eq!(text.extract_string().unwrap(), "trim description".as_bytes());
    assert!(cursor.boolean());
    assert!(cursor.is_empty());
}

#[test]
fn with_remainder_rewrites_input_and_remainder_displays() {
    let target = version::V_1_21_11;
    let world = world(target);
    let mut payload = Vec::new();
    push_var_int(&mut payload, SLOT_DISPLAY_WITH_REMAINDER);
    push_item_display(&mut payload, DIAMOND_SWORD);
    push_empty_display(&mut payload);

    let translated = translate_slot_display(&payload, target, &world);
    let mut cursor = Reader(&translated);
    assert_eq!(cursor.var_int(), world.slot(SLOT_DISPLAY_WITH_REMAINDER));
    assert_eq!(cursor.var_int(), world.slot(SLOT_DISPLAY_ITEM));
    assert_eq!(cursor.var_int(), DIAMOND_SWORD + 1);
    assert_eq!(cursor.var_int(), SLOT_DISPLAY_EMPTY);
    assert!(cursor.is_empty());
}

#[test]
fn unsupported_nested_slot_display_is_dropped_without_leaving_payload_bytes() {
    let target = version::V_1_21_11;
    let world = world(target);
    let mut payload = Vec::new();
    push_var_int(&mut payload, SLOT_DISPLAY_DYED);
    push_item_display(&mut payload, DIAMOND_SWORD);
    push_item_display(&mut payload, DIAMOND_SWORD);

    let translated = translate_slot_display(&payload, target, &world);
    let mut cursor = Reader(&translated);
    assert_eq!(cursor.var_int(), world.slot(SLOT_DISPLAY_EMPTY));
    assert!(cursor.is_empty());
}

// --- clients without recipe displays ------------------------------------------------------

fn settings_payload(settings: [bool; RECIPE_BOOK_SETTINGS]) -> Vec<u8> {
    let mut payload = Vec::new();
    for setting in settings {
        wire::write_bool(&mut payload, setting);
    }
    payload
}

fn remove_payload(ids: &[i32]) -> Vec<u8> {
    let mut payload = Vec::new();
    push_var_int(&mut payload, ids.len() as i32);
    for id in ids {
        push_var_int(&mut payload, *id);
    }
    payload
}

fn shapeless_add_payload(item_id: i32, recipe_id: i32, replace: bool) -> Vec<u8> {
    let mut payload = Vec::new();
    push_var_int(&mut payload, 1); // One display entry.
    push_var_int(&mut payload, recipe_id); // Display id.
    push_var_int(&mut payload, 0); // Shapeless.
    push_var_int(&mut payload, 1); // One ingredient slot.
    push_item_display(&mut payload, item_id);
    push_item_display(&mut payload, item_id); // Result.
    push_empty_display(&mut payload); // Station.
    push_var_int(&mut payload, 0); // No group.
    push_var_int(&mut payload, 3); // Category.
    wire::write_bool(&mut payload, false); // No crafting requirements.
    payload.push(2); // Highlight.
    wire::write_bool(&mut payload, replace);
    payload
}

fn both(outcome: Outcome) -> (Vec<u8>, Vec<u8>) {
    match outcome {
        Outcome::UpdateAndUnlock(update, unlock) => (update, unlock),
        _ => panic!("the definitions and the unlocks go in its place"),
    }
}

#[test]
fn legacy_add_emits_update_before_init_and_honors_replace_and_highlight() {
    let target = version::V_1_16_2;
    let world = world(target);
    let item_id = 700;
    let mut connection = UserConnection::new(0x7a10, target);
    let prior = shapeless_add_payload(item_id, 8, false);
    rewrite_recipe_book_add(
        &mut connection,
        &mut prior.as_slice(),
        &no_hashes(),
        version::V_26_3,
        &world.target(target),
    )
    .unwrap();

    let payload = shapeless_add_payload(item_id, 7, true);
    let (update, unlock) = both(
        rewrite_recipe_book_add(
            &mut connection,
            &mut payload.as_slice(),
            &no_hashes(),
            version::V_26_3,
            &world.target(target),
        )
        .unwrap(),
    );

    let mut update = Reader(&update);
    assert_eq!(update.var_int(), 1);
    assert_eq!(update.string(), "minecraft:crafting_shapeless");
    assert_eq!(update.string(), "000007");
    assert_eq!(update.string(), ""); // Group.
    assert_eq!(update.var_int(), 1); // Ingredient count.
    assert_eq!(update.var_int(), 1); // Alternative count.
    get_nbt_stack(&mut update.0, target).unwrap();
    get_nbt_stack(&mut update.0, target).unwrap();
    assert!(update.is_empty());

    let mut unlock = Reader(&unlock);
    assert_eq!(unlock.var_int(), 0); // Init.
    for _ in 0..RECIPE_BOOK_SETTINGS {
        assert!(!unlock.boolean());
    }
    assert_eq!(unlock.var_int(), 1);
    assert_eq!(unlock.string(), "000007");
    assert_eq!(unlock.var_int(), 1);
    assert_eq!(unlock.string(), "000007");
    assert!(unlock.is_empty());
}

#[test]
fn legacy_update_recipes_stores_stonecutter_for_the_next_add() {
    let target = version::V_1_16_2;
    let world = world(target);
    let item_id = 1;
    let mut connection = UserConnection::new(0x7a13, target);
    let mut update = Vec::new();
    push_var_int(&mut update, 0); // Ordinary groups.
    push_var_int(&mut update, 1); // Stonecutters.
    push_var_int(&mut update, 2); // HolderSet: one item.
    push_var_int(&mut update, item_id);
    push_item_display(&mut update, item_id);
    let outcome = rewrite_update_recipes(
        &mut connection,
        &mut update.as_slice(),
        &no_hashes(),
        version::V_26_3,
        &world.target(target),
    )
    .unwrap();
    assert!(matches!(outcome, Outcome::Dropped));

    let mut add = Vec::new();
    push_var_int(&mut add, 0); // No unlocked ordinary recipes.
    wire::write_bool(&mut add, true); // Replace ordinary recipes.
    let (recipes, unlock) = both(
        rewrite_recipe_book_add(
            &mut connection,
            &mut add.as_slice(),
            &no_hashes(),
            version::V_26_3,
            &world.target(target),
        )
        .unwrap(),
    );

    let mut recipes = Reader(&recipes);
    assert_eq!(recipes.var_int(), 1);
    assert_eq!(recipes.string(), "minecraft:stonecutting");
    assert_eq!(recipes.string(), "000000");
    assert_eq!(recipes.string(), "");
    assert_eq!(recipes.var_int(), 1); // One ingredient.
    assert_eq!(recipes.var_int(), 1); // One alternative.
    get_nbt_stack(&mut recipes.0, target).unwrap();
    get_nbt_stack(&mut recipes.0, target).unwrap();
    assert!(recipes.is_empty());

    let mut unlock = Reader(&unlock);
    assert_eq!(unlock.var_int(), 0);
    for _ in 0..RECIPE_BOOK_SETTINGS {
        unlock.boolean();
    }
    assert_eq!(unlock.var_int(), 1);
    assert_eq!(unlock.string(), "000000");
}

#[test]
fn settings_are_folded_into_legacy_recipe_book_packets() {
    let target = version::V_1_16_2;
    let mut connection = UserConnection::new(0x7a11, target);
    let settings = [true, false, false, true, true, true, false, false];
    let payload = settings_payload(settings);
    let outcome = rewrite_legacy_recipe_book_settings(
        &mut connection,
        &mut payload.as_slice(),
        version::V_26_3,
        target,
    )
    .unwrap();
    assert!(matches!(outcome, Outcome::Dropped));

    let payload = remove_payload(&[23]);
    let outcome = rewrite_legacy_recipe_book_remove(
        &mut connection,
        &mut payload.as_slice(),
        version::V_26_3,
        target,
    )
    .unwrap();
    let Outcome::Unlock(translated) = outcome else {
        panic!("an unlock packet goes in its place");
    };
    let mut cursor = Reader(&translated);
    assert_eq!(cursor.var_int(), 2);
    for expected in settings {
        assert_eq!(cursor.boolean(), expected);
    }
    assert_eq!(cursor.var_int(), 1);
    assert_eq!(cursor.string(), "000023");
    assert!(cursor.is_empty());
}

#[test]
fn old_recipe_clicks_return_the_synthetic_display_id_to_26_3() {
    let target = version::V_1_21;
    let mut payload = vec![5];
    wire::write_str(&mut payload, "000123".as_bytes());
    let translated = rewrite_legacy_place_recipe(&payload, target).unwrap();
    let mut cursor = Reader(&translated);
    assert_eq!(cursor.var_int(), 5);
    assert_eq!(cursor.var_int(), 123);
    assert!(cursor.is_empty());

    let mut payload = Vec::new();
    wire::write_str(&mut payload, "minecraft:000123".as_bytes());
    let translated = rewrite_legacy_seen_recipe(&payload, target).unwrap();
    let mut cursor = Reader(&translated);
    assert_eq!(cursor.var_int(), 123);
    assert!(cursor.is_empty());
}

#[test]
fn recipe_definition_layout_branches_at_legacy_protocol_changes() {
    let recipe = Recipe {
        id: 7,
        group: Some(2),
        category: 4,
        highlight: true,
        data: RecipeData::Shaped { width: 1, height: 1, ingredients: vec![Vec::new()], result: Item::Empty },
    };
    for target in [version::V_1_16_2, version::V_1_19_3, version::V_1_19_4, version::V_1_20_3] {
        let world = world(target);
        let mut payload = Vec::new();
        write_recipe_definition(&mut payload, &Placed { id: 7, recipe: &recipe }, &world.target(target)).unwrap();
        let mut cursor = Reader(&payload);
        assert_eq!(cursor.string(), "minecraft:crafting_shaped");
        assert_eq!(cursor.string(), "000007");
        if target >= version::V_1_20_3 {
            assert_eq!(cursor.string(), "2");
            assert_eq!(cursor.var_int(), 0); // Category.
            assert_eq!(cursor.var_int(), 1); // Width.
            assert_eq!(cursor.var_int(), 1); // Height.
        } else {
            assert_eq!(cursor.var_int(), 1); // Width.
            assert_eq!(cursor.var_int(), 1); // Height.
            assert_eq!(cursor.string(), "2");
            if target >= version::V_1_19_3 {
                assert_eq!(cursor.var_int(), 0); // Category.
            }
        }
        assert_eq!(cursor.var_int(), 1); // One ingredient slot.
        assert_eq!(cursor.var_int(), 0); // No alternatives.
        get_nbt_stack(&mut cursor.0, target).unwrap();
        if target >= version::V_1_19_4 {
            assert!(!cursor.boolean()); // Show notification.
        }
        assert!(cursor.is_empty(), "{target}");
    }

    // Serializers have numbers from 1.20.5 on.
    for target in [version::V_1_20_5, version::V_1_21] {
        let world = world(target);
        let mut payload = Vec::new();
        write_recipe_definition(&mut payload, &Placed { id: 7, recipe: &recipe }, &world.target(target)).unwrap();
        let mut cursor = Reader(&payload);
        assert_eq!(cursor.string(), "000007");
        cursor.var_int(); // Serializer registry ID.
    }
}

#[test]
fn known_smithing_is_consumed_and_unknown_slot_codec_fails_closed() {
    let target = version::V_1_16_2;
    let world = world(target);
    let mut connection = UserConnection::new(0x7a14, target);

    let mut smithing = Vec::new();
    push_var_int(&mut smithing, 3); // Display id.
    push_var_int(&mut smithing, 4); // Smithing display.
    for _ in 0..5 {
        push_empty_display(&mut smithing);
    }
    push_var_int(&mut smithing, 0); // No group.
    push_var_int(&mut smithing, 0); // Category.
    wire::write_bool(&mut smithing, false); // No requirements.
    smithing.push(0); // Flags.
    let mut r = smithing.as_slice();
    assert!(read_recipe(&mut connection, &mut r, &no_hashes(), &world.target(target)).unwrap().is_none());
    assert!(r.is_empty());

    let mut r: &[u8] = &[99];
    assert!(matches!(
        read_slot_display(&mut connection, &mut r, &no_hashes(), &world.target(target)),
        Err(TranslateError::UnknownDisplay)
    ));
}

#[test]
fn an_unknown_display_is_told_from_a_malformed_one() {
    let target = version::V_1_16_2;
    let world = world(target);
    let mut connection = UserConnection::new(0x7a15, target);
    let mut read = |mut bytes: &[u8]| {
        read_slot_display(&mut connection, &mut bytes, &no_hashes(), &world.target(target)).err()
    };
    // A composite of two displays, the second of which is unknown, or is not there.
    assert_eq!(read(&[10, 2, 0, 99]), Some(TranslateError::UnknownDisplay));
    assert_eq!(read(&[10, 2, 0]), Some(TranslateError::Malformed));
    assert_eq!(read(&[10, 2, 0, 0]), None);
}

#[test]
fn names_of_recipes_lead_back_to_their_numbers() {
    assert_eq!(parse_synthetic_recipe_id("000123".as_bytes()), Some(123));
    assert_eq!(parse_synthetic_recipe_id("minecraft:1234567".as_bytes()), Some(1_234_567));
    assert!(parse_synthetic_recipe_id("minecraft:stick".as_bytes()).is_none());
}

#[test]
fn refusals_of_recipe_packets_are_told_apart() {
    let target = version::V_1_16_2;
    let named = |name: &str| {
        let mut payload = Vec::new();
        wire::write_str(&mut payload, name.as_bytes());
        payload
    };
    assert_eq!(rewrite_legacy_seen_recipe(&named("minecraft:stick"), target), Err(TranslateError::Identifier));
    assert_eq!(rewrite_legacy_seen_recipe(&[4, b'a'], target), Err(TranslateError::Malformed));
    let mut click = vec![0u8];
    click.extend(named("minecraft:-3"));
    assert_eq!(rewrite_legacy_place_recipe(&click, target), Err(TranslateError::Identifier));
    assert_eq!(rewrite_legacy_place_recipe(&[], target), Err(TranslateError::Malformed));

    let mut connection = UserConnection::new(0x7a16, target);
    let mut remove = |values: &[i32]| {
        let mut payload = Vec::new();
        for value in values {
            push_var_int(&mut payload, *value);
        }
        rewrite_legacy_recipe_book_remove(&mut connection, &mut payload.as_slice(), version::V_26_3, target).err()
    };
    assert_eq!(remove(&[-1]), Some(TranslateError::Count));
    assert_eq!(remove(&[2, 7, -7]), Some(TranslateError::Identifier));
    assert_eq!(remove(&[2, 7]), Some(TranslateError::Malformed));
    assert_eq!(remove(&[1, 7]), None);
}

/// The numbers of a payload, one behind the other.
fn numbers(values: &[i32]) -> Vec<u8> {
    let mut payload = Vec::new();
    for value in values {
        push_var_int(&mut payload, *value);
    }
    payload
}

#[test]
fn a_refused_set_of_items_writes_nothing() {
    let world = world(TARGET);
    let translate = |payload: &[u8]| {
        let mut r = payload;
        let mut out = vec![7u8];
        let res = holder_set(&mut r, &mut out, &world.ids.items);
        (res, out)
    };
    for selector in [-1, i32::MIN, 4098, i32::MAX] {
        assert_eq!(translate(&numbers(&[selector, 1, 2])), (Err(TranslateError::ItemSet), vec![7]));
    }
    assert_eq!(translate(&numbers(&[3, 5])), (Err(TranslateError::Malformed), vec![7]), "one of two is missing");
    assert_eq!(translate(&[]), (Err(TranslateError::Malformed), vec![7]));
    let (res, out) = translate(&numbers(&[3, 5, UNMAPPED]));
    assert_eq!(res, Ok(()));
    assert_eq!(out[1..], numbers(&[3, 6, UNMAPPED]));
    let longest: Vec<i32> = std::iter::once(4097).chain(std::iter::repeat(1).take(4096)).collect();
    assert_eq!(translate(&numbers(&longest)).0, Ok(()));
}

#[test]
fn a_display_that_is_not_shown_writes_nothing_even_when_it_is_refused() {
    let world = world(TARGET);
    let translate = |payload: &[u8], emit: bool| {
        let mut connection = UserConnection::new(1, TARGET);
        let mut r = payload;
        let mut out = Vec::new();
        let res = slot_display(&mut connection, &mut r, &mut out, emit, &no_hashes(), &world.target(TARGET));
        (res, out)
    };
    let unknown = Err(TranslateError::UnknownDisplay);
    assert_eq!(translate(&numbers(&[11]), false), (unknown, vec![]));
    assert_eq!(translate(&numbers(&[11]), true), (unknown, vec![]));
    assert_eq!(translate(&numbers(&[-1]), true), (unknown, vec![]));
    let nested = numbers(&[SLOT_DISPLAY_COMPOSITE, 2, SLOT_DISPLAY_EMPTY, 11]);
    assert_eq!(translate(&nested, false), (unknown, vec![]));
    let shown = numbers(&[world.slot(SLOT_DISPLAY_COMPOSITE), 2, 0]);
    assert_eq!(translate(&nested, true), (unknown, shown));
    let crowded = numbers(&[SLOT_DISPLAY_COMPOSITE, 4097]);
    assert_eq!(translate(&crowded, false), (Err(TranslateError::Count), vec![]));
    let wide = numbers(&[SLOT_DISPLAY_TAG, 4098]);
    assert_eq!(translate(&wide, false), (Err(TranslateError::ItemSet), vec![]));
    let cut = numbers(&[SLOT_DISPLAY_ITEM]);
    assert_eq!(translate(&cut, true), (Err(TranslateError::Malformed), vec![]));
}

#[test]
fn refusals_of_displays_come_through_the_packets() {
    let world = world(TARGET);
    let mut connection = UserConnection::new(1, TARGET);
    let unknown = numbers(&[1, 9, 3, 11]);
    assert_eq!(add(&unknown, TARGET, &world).err(), Some(TranslateError::UnknownDisplay));
    assert_eq!(add(&numbers(&[1, 9, 5]), TARGET, &world).err(), Some(TranslateError::UnknownRecipe));
    assert_eq!(add(&numbers(&[16385]), TARGET, &world).err(), Some(TranslateError::Count));
    // A recipe of three empty displays, with a set of too many items behind it.
    let wide = [numbers(&[1, 9, 3, 0, 0, 0, 0, 0]), vec![1], numbers(&[1, -4])].concat();
    assert_eq!(add(&wide, TARGET, &world).err(), Some(TranslateError::ItemSet));
    assert_eq!(add(&wide[..wide.len() - 5], TARGET, &world).err(), Some(TranslateError::Malformed));

    let mut update = |payload: &[u8]| {
        let target = world.target(TARGET);
        rewrite_update_recipes(&mut connection, &mut &payload[..], &no_hashes(), version::V_26_3, &target).err()
    };
    assert_eq!(update(&numbers(&[0, 1, 4098])), Some(TranslateError::ItemSet));
    assert_eq!(update(&numbers(&[0, 1, 2, 5, 11])), Some(TranslateError::UnknownDisplay));
    assert_eq!(update(&numbers(&[0, 1, 2, 5])), Some(TranslateError::Malformed));
    assert_eq!(update(&numbers(&[0, -1])), Some(TranslateError::Count));
    let mut ghost = |payload: &[u8]| {
        let target = world.target(TARGET);
        rewrite_place_ghost_recipe(&mut connection, &mut &payload[..], &no_hashes(), version::V_26_3, &target).err()
    };
    assert_eq!(ghost(&numbers(&[1, 3, 0, 12])), Some(TranslateError::UnknownDisplay));
    assert_eq!(ghost(&numbers(&[1, 7])), Some(TranslateError::UnknownRecipe));
    assert_eq!(ghost(&numbers(&[1, 3, 0])), Some(TranslateError::Malformed));
}

#[test]
fn what_was_written_before_a_refusal_is_known() {
    let world = world(TARGET);
    let mut connection = UserConnection::new(1, TARGET);
    let mut out = Vec::new();
    let payload = numbers(&[3, 0, 11]);
    let res = recipe_display(&mut connection, &mut payload.as_slice(), &mut out, &no_hashes(), &world.target(TARGET));
    assert_eq!(res, Err(TranslateError::UnknownDisplay));
    assert_eq!(out, numbers(&[3, 0]));

    let mut out = Vec::new();
    let payload = [vec![1], numbers(&[2, 2, 5, -1])].concat();
    assert_eq!(
        crafting_requirements(&mut payload.as_slice(), &mut out, &world.ids.items),
        Err(TranslateError::ItemSet)
    );
    assert_eq!(out, [vec![1], numbers(&[2, 2, 6])].concat());
}

#[test]
fn refusals_of_old_recipes_are_told_apart() {
    let target = version::V_1_16_2;
    let world = world(target);
    let read = |payload: &[i32]| {
        let bytes = numbers(payload);
        let mut connection = UserConnection::new(1, target);
        read_recipe(&mut connection, &mut bytes.as_slice(), &no_hashes(), &world.target(target)).err()
    };
    assert_eq!(read(&[-1]), Some(TranslateError::Identifier));
    assert_eq!(read(&[1, 5]), Some(TranslateError::UnknownRecipe));
    assert_eq!(read(&[1, 1, 4, 1]), Some(TranslateError::GridSize));
    assert_eq!(read(&[1, 1, 2, 1, 1, 0]), Some(TranslateError::GridFill));
    assert_eq!(read(&[1, 0, 5000]), Some(TranslateError::Count));
    assert_eq!(read(&[1, 3, SLOT_DISPLAY_ITEM, -2]), Some(TranslateError::ItemNumber));
    assert_eq!(read(&[1, 3, SLOT_DISPLAY_TAG, -2]), Some(TranslateError::ItemSet));
    assert_eq!(read(&[1, 3, SLOT_DISPLAY_ONLY_WITH_COMPONENT, 0, -1]), Some(TranslateError::ComponentNumber));
    assert_eq!(read(&[1, 3, 0, 0, 0, -1]), Some(TranslateError::GroupNumber));
    assert_eq!(read(&[1, 3, 0, 0, 0, 0, -1]), Some(TranslateError::CategoryNumber));
    assert_eq!(read(&[1, 3, 0, 0, 0, 0, 0]), Some(TranslateError::Malformed));
}

#[test]
fn a_kind_of_recipe_that_the_client_lacks_is_refused() {
    let target = version::V_1_21;
    let mut world = world(target);
    world.ids.recipe_serializers = IdMapping { slots: Vec::new() };
    let recipe = Recipe {
        id: 4,
        group: None,
        category: 0,
        highlight: false,
        data: RecipeData::Shapeless { ingredients: Vec::new(), result: Item::Empty },
    };
    let placed = Placed { id: recipe.id, recipe: &recipe };
    assert_eq!(
        write_recipe_definition(&mut Vec::new(), &placed, &world.target(target)),
        Err(TranslateError::RecipeKind)
    );
}
