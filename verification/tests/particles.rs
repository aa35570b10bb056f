use java_multiversion::catalog::{Catalog, DataComponent, Layout as ComponentLayout};
use java_multiversion::client_item::ClientboundItemT;
use java_multiversion::connection::UserConnection;
use java_multiversion::item::StructuredItemRewriter;
use java_multiversion::item_backup::{restore_full_item, ComponentHash};
use java_multiversion::mapping::{ComposedMappings, IdMapping};
use java_multiversion::particle::{
    explode, level_particles, read_particle, read_particle_for_layout, rewrite_particle,
    rewrite_particle_packet_with_connection, vibration_origin, write_data, write_particle,
    write_particle_with_connection, Layout, Particle, ParticleData, VibrationSource,
};
use java_multiversion::shape::{pair, Shape};
use java_multiversion::sound::{sound, stop_sound, FIRST_HOLDER};
use java_multiversion::target::{Target, Texts};
use java_multiversion::types::{write_item, Item, ItemComponent};
use java_multiversion::version;
use java_multiversion::wire;
use java_multiversion::wire::TranslateError;

const DIAMOND: i32 = 900;
const ATTACK_ANIMATION: i32 = 1;
const UNHEARD: u32 = 0;
const ALIAS: u32 = 701;

const PARTICLES: [&str; 14] = [
    "angry_villager",
    "block",
    "dust",
    "entity_effect",
    "explosion",
    "explosion_emitter",
    "flame",
    "geyser_base",
    "item",
    "vibration",
    "sculk_charge",
    "trail",
    "dust_color_transition",
    "shriek",
];

fn particle_id(name: &str) -> i32 {
    PARTICLES.iter().position(|known| *known == name).unwrap() as i32
}

fn table(size: u32, map: impl Fn(u32) -> Option<u32>) -> IdMapping {
    IdMapping { slots: (0..size).map(map).collect() }
}

fn shifted(size: u32) -> IdMapping {
    table(size, |id| Some(id + 1))
}

struct World {
    version: u32,
    ids: ComposedMappings,
    cat: Catalog,
    texts: Texts,
}

fn mappings(version: u32) -> ComposedMappings {
    let native = version >= version::V_26_3;
    let geyser = particle_id("geyser_base") as u32;
    let by = |distance: u32| if native { 0 } else { distance };
    ComposedMappings {
        items: table(2000, |id| Some(id + by(1))),
        blocks: shifted(10),
        block_states: table(10, |id| Some(id + by(5))),
        entities: shifted(10),
        blockentities: shifted(10),
        enchantments: shifted(10),
        attributes: shifted(10),
        paintings: shifted(10),
        // Two sounds share a number, and the first and the 109th are missing.
        sounds: table(1000, |id| match id {
            UNHEARD | 108 => None,
            ALIAS => Some(700 + by(1)),
            _ => Some(id + by(1)),
        }),
        particles: table(PARTICLES.len() as u32, |id| {
            if id == geyser && version < version::V_26_2 { None } else { Some(id + by(2)) }
        }),
        recipe_serializers: shifted(10),
        slot_displays: shifted(10),
        data_component_type: IdMapping {
            slots: vec![Some(by(3)), if version >= version::V_26_2 { Some(1) } else { None }],
        },
        custom_model_data: Vec::new(),
    }
}

fn world(version: u32) -> World {
    World {
        version,
        ids: mappings(version),
        cat: Catalog {
            components: vec![DataComponent::CustomData, DataComponent::AttackAnimation],
            layouts: vec![
                ComponentLayout { component: 0, since: version::V_1_20_5, shape: Shape::Nbt },
                ComponentLayout {
                    component: ATTACK_ANIMATION,
                    since: version::V_26_2,
                    shape: pair(Shape::VarInt, Shape::VarInt),
                },
            ],
            registries: Vec::new(),
            enchantments: Vec::new(),
            potions: Vec::new(),
            attributes: Vec::new(),
            items: Vec::new(),
            enchantment_names: Vec::new(),
            enchantments_1_20_5: shifted(1),
            block_entities: Vec::new(),
            particles: PARTICLES.iter().map(|name| name.as_bytes().to_vec()).collect(),
            sounds: (0..1000).map(|id| format!("sound.{id}").into_bytes()).collect(),
        },
        texts: Texts { rendered: Vec::new(), parsed: Vec::new() },
    }
}

impl World {
    fn target(&self) -> Target<'_> {
        Target { version: self.version, ids: &self.ids, cat: &self.cat, texts: &self.texts }
    }
}

fn mapped(name: &str, world: &World) -> i32 {
    world.ids.particles.map_id(particle_id(name)).unwrap()
}

fn no_hashes() -> Vec<ComponentHash> {
    Vec::new()
}

// --- sounds -----------------------------------------------------------------------------

/// Category, position, volume, pitch and seed: the rest of the packet, which is
/// only copied.
fn tail() -> Vec<u8> {
    let mut tail = vec![0u8; 1 + 12 + 4 + 4];
    tail.extend_from_slice(&42i64.to_be_bytes());
    tail
}

fn sound_payload(id: i32, version: u32) -> Vec<u8> {
    let mut payload = Vec::new();
    wire::write_var_int(&mut payload, if version >= FIRST_HOLDER { id + 1 } else { id });
    payload.extend_from_slice(&tail());
    payload
}

#[test]
fn the_sound_id_is_renumbered_in_both_forms() {
    for version in [version::V_26_2, version::V_1_21_4, version::V_1_18_2] {
        let world = world(version);
        let expected = world.ids.sounds.map_id(700).unwrap();
        let out = sound(&sound_payload(700, version), &world.target()).unwrap().unwrap();

        let mut cursor = out.as_slice();
        let found = wire::get_var_int(&mut cursor).unwrap();
        let offset = i32::from(version >= FIRST_HOLDER);
        assert_eq!(found - offset, expected, "{version}");
        assert_eq!(cursor, tail(), "{version}");
    }
}

#[test]
fn an_inline_event_keeps_its_name() {
    let mut payload = vec![0, 4];
    payload.extend_from_slice(b"ping");
    payload.push(0);
    payload.extend_from_slice(&tail());
    let world = world(version::V_1_21_4);
    assert_eq!(sound(&payload, &world.target()).unwrap().unwrap(), payload);
}

#[test]
fn a_sound_the_client_lacks_drops_the_packet() {
    let world = world(version::V_1_16_2);
    assert!(world.ids.sounds.map(0).is_none());
    assert!(sound(&sound_payload(0, world.version), &world.target()).unwrap().is_none());
}

#[test]
fn a_sound_packet_that_ends_early_is_malformed() {
    let world = world(version::V_1_21_4);
    assert!(sound(&[], &world.target()).is_err());
    assert_eq!(stop_sound(&[], &world.target()), Err(TranslateError::Malformed));
    assert_eq!(stop_sound(&[1], &world.target()), Err(TranslateError::Malformed));
}

#[test]
fn unknown_flags_of_a_stopped_sound_are_told_from_missing_bytes() {
    let world = world(version::V_1_21_4);
    for flags in [4u8, 7, 255] {
        assert_eq!(stop_sound(&[flags], &world.target()), Err(TranslateError::SoundFlags));
    }
    assert_eq!(stop_sound(&[0], &world.target()), Ok(Some(vec![0])));
}

#[test]
fn stop_sound_preserves_vanilla_names_for_aliased_ids() {
    let world = world(version::V_1_16_2);
    let target = world.ids.sounds.map(ALIAS).unwrap();
    assert_ne!(world.ids.sounds.unmap(target), Some(ALIAS));
    let mut payload = vec![2];
    wire::write_str(&mut payload, format!("minecraft:sound.{ALIAS}").as_bytes());
    assert_eq!(stop_sound(&payload, &world.target()).unwrap(), Some(payload));
}

#[test]
fn stop_sound_preserves_custom_names_and_cancels_unmapped_vanilla_names() {
    let world = world(version::V_1_16_2);
    let mut custom = vec![2];
    wire::write_str(&mut custom, "playasia:custom.entry".as_bytes());
    assert_eq!(stop_sound(&custom, &world.target()).unwrap(), Some(custom));

    let mut removed = vec![2];
    wire::write_str(&mut removed, format!("minecraft:sound.{UNHEARD}").as_bytes());
    assert_eq!(stop_sound(&removed, &world.target()).unwrap(), None);
}

// --- particles --------------------------------------------------------------------------

fn diamond(added: Vec<ItemComponent>) -> Item {
    Item::Structured { count: 1, id: DIAMOND, added, removed: Vec::new() }
}

fn item_particle(item: &Item) -> Particle {
    let mut stack = Vec::new();
    write_item(&mut stack, item, version::V_26_3, false).unwrap();
    Particle { id: particle_id("item"), data: ParticleData::Item(stack) }
}

#[test]
fn item_particles_rewrite_the_nested_stack_for_old_clients() {
    let native = world(version::V_26_3);
    let source = item_particle(&diamond(Vec::new()));
    for version in [version::V_26_2, version::V_1_16_2] {
        let world = world(version);
        let mut output = Vec::new();
        assert!(write_particle(&mut output, &source, &native.target(), &world.target()));

        let mut input = output.as_slice();
        assert_eq!(wire::get_var_int(&mut input).unwrap(), mapped("item", &world));
        let item = ClientboundItemT::new(world.target()).read(&mut input).unwrap();
        assert!(input.is_empty());
        let Item::Structured { id, .. } = item else {
            panic!("diamond item particle remains a structured stack");
        };
        assert_eq!(id, DIAMOND, "{version}");
    }
}

#[test]
fn item_particles_read_and_rewrite_nested_stacks_from_older_layouts() {
    let native = world(version::V_26_3);
    let source = diamond(Vec::new());
    for version in [version::V_26_2, version::V_1_16_2] {
        let world = world(version);
        let target_item = StructuredItemRewriter::to_version(&source, &world.target());
        let mut payload = Vec::new();
        wire::write_var_int(&mut payload, mapped("item", &world));
        write_item(&mut payload, &target_item, version, false).unwrap();

        let mut input = payload.as_slice();
        let particle = read_particle_for_layout(&mut input, &world.target()).unwrap();
        assert!(input.is_empty(), "{version}");
        assert_eq!(particle.id, particle_id("item"));

        let mut output = Vec::new();
        assert!(write_particle(&mut output, &particle, &native.target(), &world.target()));
        let mut translated = output.as_slice();
        assert_eq!(wire::get_var_int(&mut translated).unwrap(), mapped("item", &world), "{version}");
        let item = ClientboundItemT::new(world.target()).read(&mut translated).unwrap();
        assert!(translated.is_empty(), "{version}");
        assert_eq!(item.item_id(), Some(DIAMOND), "{version}");
    }
}

#[test]
fn item_particles_use_the_player_backup_cache() {
    let native = world(version::V_26_3);
    let world = world(version::V_1_21_4);
    let particle = item_particle(&diamond(vec![ItemComponent { id: ATTACK_ANIMATION, data: vec![1, 6] }]));
    let hashes = vec![ComponentHash { id: ATTACK_ANIMATION, data: vec![1, 6], hash: 77 }];
    let mut connection = UserConnection::new(22, world.version);
    let mut output = Vec::new();
    assert!(write_particle_with_connection(
        &mut output,
        &particle,
        &hashes,
        &native.target(),
        &world.target(),
        &mut connection,
    ));

    let mut read = output.as_slice();
    wire::get_var_int(&mut read).unwrap(); // Particle id
    let returned = ClientboundItemT::new(world.target()).read(&mut read).unwrap();
    assert!(read.is_empty());
    let returned = restore_full_item(&connection, returned, &world.target());
    let Item::Structured { added, .. } = returned else {
        panic!("the item particle contains a structured item");
    };
    assert!(added.iter().any(|component| component.id == ATTACK_ANIMATION && component.data == [1, 6]));
}

#[test]
fn a_particle_without_a_known_shape_does_not_drop_option_bytes() {
    let native = world(version::V_26_3);
    let world = world(version::V_26_2);
    let data = ParticleData::Color(0x1122_3344);
    assert!(write_data(&data, Layout::Nothing, &native.target(), &world.target()).is_none());
}

/// The particle packet: the id leads below 1.20.5 and follows the count from it,
/// with the option data always at the end.
fn particles_payload(id: i32, data: &[u8], version: u32) -> Vec<u8> {
    let mut out = Vec::new();
    if version < version::V_1_20_5 {
        if version >= version::V_1_19 {
            wire::write_var_int(&mut out, id);
        } else {
            wire::write_i32(&mut out, id);
        }
    }
    wire::write_bool(&mut out, true);
    if version >= version::V_1_21_4 {
        wire::write_bool(&mut out, false);
    }
    for coordinate in [1.0f64, 2.0, 3.0] {
        wire::write_u64(&mut out, coordinate.to_bits());
    }
    for offset in [0.1f32, 0.2, 0.3, 0.5] {
        wire::write_u32(&mut out, offset.to_bits());
    }
    wire::write_i32(&mut out, 4);
    if version >= version::V_1_20_5 {
        wire::write_var_int(&mut out, id);
    }
    out.extend_from_slice(data);
    out
}

fn run_particles(payload: &[u8], world: &World) -> Option<Vec<u8>> {
    let native = crate::world(version::V_26_3);
    let mut connection = UserConnection::new(0, world.version);
    let mut r = payload;
    level_particles(&mut connection, &mut r, &no_hashes(), &native.target(), &world.target()).unwrap()
}

#[test]
fn the_slice_seam_reports_what_it_cannot_say() {
    let native = world(version::V_26_3);
    let world = world(version::V_1_18_2);
    let mut payload = Vec::new();
    wire::write_var_int(&mut payload, particle_id("block"));
    wire::write_var_int(&mut payload, 1);
    let mut cursor = payload.as_slice();
    let block = read_particle(&mut cursor, &native.target()).unwrap();
    assert!(cursor.is_empty());

    let mut out = Vec::new();
    assert!(write_particle(&mut out, &block, &native.target(), &world.target()));
    let mut expected = Vec::new();
    wire::write_var_int(&mut expected, mapped("block", &world));
    wire::write_var_int(&mut expected, world.ids.block_states.map_id(1).unwrap());
    assert_eq!(out, expected);

    // 1.18 needs a packet position to make the vibration's origin from.
    let vibration = Particle {
        id: particle_id("vibration"),
        data: ParticleData::Vibration { origin: None, source: VibrationSource::Block(0), ticks: 20 },
    };
    let geyser = Particle {
        id: particle_id("geyser_base"),
        data: ParticleData::Geyser { water_blocks: 1, impulse: 0.0f32.to_bits() },
    };
    let mut out = Vec::new();
    assert!(!write_particle(&mut out, &vibration, &native.target(), &world.target()));
    assert!(!write_particle(&mut out, &geyser, &native.target(), &world.target()));
    assert!(out.is_empty());
}

#[test]
fn level_vibrations_get_their_origin_from_the_packet_position_for_1_18() {
    let world = world(version::V_1_18_2);
    let destination = 0x0000_0004_0000_0005i64;
    let mut data = Vec::new();
    wire::write_var_int(&mut data, 0);
    wire::write_i64(&mut data, destination);
    wire::write_var_int(&mut data, 20);

    let output =
        run_particles(&particles_payload(particle_id("vibration"), &data, world.version), &world).unwrap();
    let mut translated = output.as_slice();
    assert_eq!(wire::get_i32(&mut translated).unwrap(), mapped("vibration", &world));
    assert!(wire::get_bool(&mut translated).unwrap());
    for expected in [1.0f64, 2.0, 3.0] {
        assert_eq!(f64::from_bits(wire::get_u64(&mut translated).unwrap()), expected);
    }
    for expected in [0.1f32, 0.2, 0.3, 0.5] {
        assert_eq!(f32::from_bits(wire::get_u32(&mut translated).unwrap()), expected);
    }
    assert_eq!(wire::get_i32(&mut translated).unwrap(), 4);
    let origin = ((1i64 & 0x3ff_ffff) << 38) | ((3i64 & 0x3ff_ffff) << 12) | (2i64 & 0xfff);
    assert_eq!(wire::get_i64(&mut translated).unwrap(), origin);
    assert_eq!(wire::get_str(&mut translated).unwrap(), "minecraft:block".as_bytes());
    assert_eq!(wire::get_i64(&mut translated).unwrap(), destination);
    assert_eq!(wire::get_var_int(&mut translated).unwrap(), 20);
    assert!(translated.is_empty());
}

#[test]
fn legacy_vibration_particle_data_keeps_its_origin_position() {
    let native = world(version::V_26_3);
    let world = world(version::V_1_18_2);
    let from_origin = 0x0000_0001_0000_0002i64;
    let destination = 0x0000_0004_0000_0005i64;
    let mut input = Vec::new();
    wire::write_var_int(&mut input, mapped("vibration", &world));
    wire::write_i64(&mut input, from_origin);
    wire::write_str(&mut input, "minecraft:block".as_bytes());
    wire::write_i64(&mut input, destination);
    wire::write_var_int(&mut input, 20);

    let mut cursor = input.as_slice();
    let particle = read_particle_for_layout(&mut cursor, &world.target()).unwrap();
    assert!(cursor.is_empty());
    assert!(matches!(
        &particle.data,
        ParticleData::Vibration {
            origin: Some(found),
            source: VibrationSource::Block(found_destination),
            ticks: 20,
        } if *found == from_origin && *found_destination == destination
    ));
    let mut output = Vec::new();
    assert!(write_particle(&mut output, &particle, &native.target(), &world.target()));
    assert_eq!(output, input);

    let mut entity_input = Vec::new();
    wire::write_var_int(&mut entity_input, mapped("vibration", &world));
    wire::write_i64(&mut entity_input, from_origin);
    wire::write_str(&mut entity_input, "minecraft:entity".as_bytes());
    wire::write_var_int(&mut entity_input, 45);
    wire::write_var_int(&mut entity_input, 20);
    let mut cursor = entity_input.as_slice();
    let particle = read_particle_for_layout(&mut cursor, &world.target()).unwrap();
    assert!(cursor.is_empty());
    assert!(matches!(
        &particle.data,
        ParticleData::Vibration {
            origin: Some(found),
            source: VibrationSource::Entity { id: 45, .. },
            ticks: 20,
        } if *found == from_origin
    ));
    let mut output = Vec::new();
    assert!(write_particle(&mut output, &particle, &native.target(), &world.target()));
    assert_eq!(output, entity_input);
}

#[test]
fn vibration_origin_uses_floor_and_rejects_unrepresentable_positions() {
    let at = |x: f64, y: f64, z: f64| vibration_origin(x.to_bits(), y.to_bits(), z.to_bits());
    let expected = ((-1i64 & 0x3ff_ffff) << 38) | ((3i64 & 0x3ff_ffff) << 12) | (-65i64 & 0xfff);
    assert_eq!(at(-0.25, -64.1, 3.99), Some(expected));
    assert!(at(f64::NAN, 0.0, 0.0).is_none());
    assert!(at(0.0, 2048.0, 0.0).is_none());
}

#[test]
fn a_plain_particle_is_renumbered_in_every_layout() {
    for version in [version::V_26_2, version::V_1_21, version::V_1_16_2] {
        let world = world(version);
        let out = run_particles(&particles_payload(particle_id("flame"), &[], version), &world).unwrap();
        assert_eq!(out, particles_payload(mapped("flame", &world), &[], version), "{version}");
    }
}

#[test]
fn the_dust_colour_is_unpacked_below_1_21_2() {
    for version in [version::V_1_21, version::V_1_16_2] {
        let world = world(version);
        let mut data = Vec::new();
        wire::write_i32(&mut data, 0x00ff_8000);
        wire::write_u32(&mut data, 1.5f32.to_bits());

        let mut expected = Vec::new();
        for channel in [1.0f32, 128.0 / 255.0, 0.0, 1.5] {
            wire::write_u32(&mut expected, channel.to_bits());
        }
        let out = run_particles(&particles_payload(particle_id("dust"), &data, version), &world).unwrap();
        assert_eq!(out, particles_payload(mapped("dust", &world), &expected, version), "{version}");
    }
}

#[test]
fn the_potion_colour_moves_into_speed_without_particle_option_bytes_below_1_20_5() {
    let world = world(version::V_1_20_2);
    let speed = 1 + 1 + 24 + 12;
    for original_speed in [0.0f32, 1.5] {
        let mut payload = particles_payload(particle_id("entity_effect"), &[], world.version);
        payload[speed..speed + 4].copy_from_slice(&original_speed.to_be_bytes());
        wire::write_i32(&mut payload, 64);

        let mut expected = particles_payload(mapped("entity_effect", &world), &[], world.version);
        let expected_speed = if original_speed == 0.0 { 64.0 } else { original_speed };
        expected[speed..speed + 4].copy_from_slice(&expected_speed.to_be_bytes());
        assert_eq!(run_particles(&payload, &world).unwrap(), expected);
    }
}

#[test]
fn a_particle_the_client_lacks_drops_the_packet() {
    let world = world(version::V_1_21);
    assert!(world.ids.particles.map_id(particle_id("geyser_base")).is_none());
    let mut data = Vec::new();
    wire::write_i32(&mut data, 3);
    wire::write_u32(&mut data, 1.0f32.to_bits());
    assert!(run_particles(&particles_payload(particle_id("geyser_base"), &data, world.version), &world).is_none());
}

#[test]
fn a_lone_particle_is_translated_or_left_out() {
    let native = world(version::V_26_3);
    let world = world(version::V_1_21);
    let mut out = Vec::new();
    let payload = [particle_id("flame") as u8, 9];
    let mut r = payload.as_slice();
    assert_eq!(rewrite_particle(&mut r, &mut out, &native.target(), &world.target()), Ok(true));
    assert_eq!(r, [9]);
    assert_eq!(out, [mapped("flame", &world) as u8]);

    let mut geyser = vec![particle_id("geyser_base") as u8];
    geyser.extend_from_slice(&[0, 0, 0, 3, 0, 0, 0, 0]);
    let mut r = geyser.as_slice();
    assert_eq!(rewrite_particle(&mut r, &mut out, &native.target(), &world.target()), Ok(false));
    assert_eq!(out.len(), 1);

    let mut r: &[u8] = &[];
    assert!(rewrite_particle(&mut r, &mut out, &native.target(), &world.target()).is_err());
}

#[test]
fn a_packets_particle_goes_through_the_connection() {
    let native = world(version::V_26_3);
    let world = world(version::V_1_21);
    let mut connection = UserConnection::new(23, world.version);
    let mut out = vec![5];
    let payload = [particle_id("flame") as u8, 9];
    let mut r = payload.as_slice();
    let shown = rewrite_particle_packet_with_connection(
        &mut connection,
        &mut r,
        &mut out,
        &Vec::new(),
        &native.target(),
        &world.target(),
    );
    assert_eq!(shown, Ok(true));
    assert_eq!(r, [9]);
    assert_eq!(out, [5, mapped("flame", &world) as u8]);
}

/// The explosion: a knockback option, one particle and the sound from 1.21.2, two
/// particles behind the block list from 1.20.3, and neither below it.
fn explode_payload(particle: i32, small: i32, sound: i32, version: u32) -> Vec<u8> {
    let mut out = Vec::new();
    if version >= version::V_1_21_2 {
        for coordinate in [1.0f64, 2.0, 3.0] {
            wire::write_u64(&mut out, coordinate.to_bits());
        }
        if version >= version::V_1_21_9 {
            wire::write_u32(&mut out, 4.0f32.to_bits());
            wire::write_i32(&mut out, 0);
        }
        wire::write_bool(&mut out, false);
        wire::write_var_int(&mut out, particle);
        wire::write_var_int(&mut out, sound + 1);
        if version >= version::V_1_21_9 {
            wire::write_var_int(&mut out, 0);
        }
        return out;
    }

    for coordinate in [1.0f32, 2.0, 3.0] {
        if version >= version::V_1_19_3 {
            wire::write_u64(&mut out, f64::from(coordinate).to_bits());
        } else {
            wire::write_u32(&mut out, coordinate.to_bits());
        }
    }
    wire::write_u32(&mut out, 4.0f32.to_bits());
    if version >= version::V_1_17 {
        wire::write_var_int(&mut out, 0);
    } else {
        wire::write_i32(&mut out, 0);
    }
    for knockback in [0.0f32; 3] {
        wire::write_u32(&mut out, knockback.to_bits());
    }
    if version >= version::V_1_20_3 {
        wire::write_var_int(&mut out, 1);
        wire::write_var_int(&mut out, small);
        wire::write_var_int(&mut out, particle);
        wire::write_var_int(&mut out, sound + 1);
    }
    out
}

fn run_explosion(payload: &[u8], world: &World) -> Option<Vec<u8>> {
    let native = crate::world(version::V_26_3);
    let mut connection = UserConnection::new(0, world.version);
    let mut r = payload;
    explode(&mut connection, &mut r, &no_hashes(), &native.target(), &world.target()).unwrap()
}

#[test]
fn the_explosion_particle_and_sound_are_renumbered() {
    for version in [version::V_26_2, version::V_1_21_4, version::V_1_20_5] {
        let world = world(version);
        let emitter = particle_id("explosion_emitter");
        let small = particle_id("explosion");
        let out = run_explosion(&explode_payload(emitter, small, 700, version), &world).unwrap();
        let sound = world.ids.sounds.map_id(700).unwrap();
        assert_eq!(
            out,
            explode_payload(mapped("explosion_emitter", &world), mapped("explosion", &world), sound, version),
            "{version}"
        );
    }
}

#[test]
fn the_oldest_explosion_layout_is_copied() {
    let world = world(version::V_1_16_2);
    let payload = explode_payload(0, 0, 0, world.version);
    assert_eq!(run_explosion(&payload, &world).unwrap(), payload);
}

#[test]
fn a_sound_the_client_lacks_drops_the_explosion() {
    let world = world(version::V_1_20_5);
    assert!(world.ids.sounds.map(108).is_none());
    let emitter = particle_id("explosion_emitter");
    let small = particle_id("explosion");
    assert!(run_explosion(&explode_payload(emitter, small, 108, world.version), &world).is_none());
}

#[test]
fn bytes_behind_an_old_particle_packet_are_counted() {
    let world = world(version::V_1_19);
    let native = crate::world(version::V_26_3);
    let mut connection = UserConnection::new(0, world.version);
    let mut read = |payload: &[u8]| {
        let mut r = payload;
        level_particles(&mut connection, &mut r, &no_hashes(), &native.target(), &world.target()).err()
    };
    let whole = particles_payload(particle_id("flame"), &[], world.version);
    assert_eq!(read(&whole), None);
    assert_eq!(read(&particles_payload(particle_id("flame"), &[1, 2, 3], world.version)), Some(TranslateError::TrailingBytes(3)));
    assert_eq!(read(&whole[..whole.len() - 1]), Some(TranslateError::Malformed));
}

#[test]
fn refused_particles_say_why() {
    let native = world(version::V_26_3);
    let old = world(version::V_1_18_2);
    let read_old = |payload: &[u8]| read_particle_for_layout(&mut &payload[..], &old.target()).err();

    let mut vibration = Vec::new();
    wire::write_var_int(&mut vibration, mapped("vibration", &old));
    wire::write_i64(&mut vibration, 7);
    wire::write_str(&mut vibration, "minecraft:weather".as_bytes());
    assert_eq!(read_old(&vibration), Some(TranslateError::VibrationSource));
    assert_eq!(read_old(&vibration[..6]), Some(TranslateError::Malformed));

    let mut dust = Vec::new();
    wire::write_var_int(&mut dust, mapped("dust", &old));
    wire::write_u32(&mut dust, f32::INFINITY.to_bits());
    assert_eq!(read_old(&dust), Some(TranslateError::ParticleColor), "what follows is not looked at");
    assert_eq!(read_old(&dust[..3]), Some(TranslateError::Malformed));

    assert_eq!(read_old(&[0]), Some(TranslateError::ParticleNumber));
    let mut block = Vec::new();
    wire::write_var_int(&mut block, mapped("block", &old));
    wire::write_var_int(&mut block, 4);
    assert_eq!(read_old(&block), Some(TranslateError::BlockState));

    let read = |payload: &[u8]| read_particle(&mut &payload[..], &native.target()).err();
    let mut block = Vec::new();
    wire::write_var_int(&mut block, particle_id("block"));
    wire::write_var_int(&mut block, -1);
    assert_eq!(read(&block), Some(TranslateError::BlockState));
    assert_eq!(read(&[particle_id("item") as u8]), Some(TranslateError::ParticleItem));
}
