//! What entries of metadata and attributes say, byte by byte.
use vstd::prelude::*;
use crate::catalog;
use crate::connection;
use crate::connection::UserConnection;
use crate::entity;
use crate::entity::DataEntry;
use crate::entity::EntityTables;
use crate::entity::Value;
use crate::entity_data_types;
use crate::entity_data_types::MetaKind;
use crate::item_backup::ComponentHash;
use crate::mapping;
use crate::particle;
use crate::particle::Layout;
use crate::particle::Options;
use crate::particle::ParticleView;
use crate::particle_bytes;
use crate::shape;
use crate::target::Target;
use crate::text;
use crate::types;
use crate::version;
use crate::wire;

verus! {

// --- values ------------------------------------------------------------------------------------------

/// A value that is a number is written as that number, and reads back.
pub proof fn numbers_read_back(n: i32, rest: Seq<u8>, native: &Target)
    ensures
        entity::enc_value(Value::BlockState(n)) == Some(wire::enc_var_int(n)),
        entity::enc_value(Value::OptionalBlockState(n)) == Some(wire::enc_var_int(n)),
        entity::enc_value(Value::PaintingVariant(n)) == Some(wire::enc_var_int(n)),
        entity::take_value(MetaKind::BlockState, wire::enc_var_int(n) + rest, native) == Some(
            (Value::BlockState(n), rest),
        ),
        entity::take_value(MetaKind::OptionalBlockState, wire::enc_var_int(n) + rest, native) == Some(
            (Value::OptionalBlockState(n), rest),
        ),
        entity::take_value(MetaKind::PaintingVariant, wire::enc_var_int(n) + rest, native) == Some(
            (Value::PaintingVariant(n), rest),
        ),
{
    wire::var_int_round_trip(n, rest);
}

/// Whether a kind of value is one that has nothing to be renumbered.
pub open spec fn is_raw(kind: MetaKind) -> bool {
    !(kind is Item || kind is BlockState || kind is OptionalBlockState || kind is PaintingVariant || kind is Particle
        || kind is Particles)
}

/// A value that has nothing to be renumbered is its own bytes, and so is a stack until
/// it is translated: what is written is what stood in front when it was read.
pub proof fn other_values_are_kept(kind: MetaKind, s: Seq<u8>, native: &Target)
    ensures
        is_raw(kind) || kind is Item ==> (entity::take_value(kind, s, native) matches Some((value, rest))
            ==> (entity::enc_value(value) matches Some(bytes) && bytes.len() + rest.len() == s.len() && bytes == s.take(
            bytes.len() as int,
        ))),
{
}

/// How long values of fixed length are.
pub proof fn fixed_values_have_their_length(kind: MetaKind, bytes: Seq<u8>, rest: Seq<u8>, native: &Target)
    requires
        kind is Byte || kind is Bool ==> bytes.len() == 1,
        kind is Float ==> bytes.len() == 4,
        kind is BlockPos ==> bytes.len() == 8,
        kind is Rotations || kind is Vector3 ==> bytes.len() == 12,
        kind is Quaternion ==> bytes.len() == 16,
        kind is Byte || kind is Bool || kind is Float || kind is BlockPos || kind is Rotations || kind is Vector3
            || kind is Quaternion,
    ensures
        entity::take_value(kind, bytes + rest, native) == Some((Value::Raw(bytes), rest)),
{
    assert((bytes + rest).take(bytes.len() as int) =~= bytes);
    assert((bytes + rest).skip(bytes.len() as int) =~= rest);
}

/// Numbers and texts are as long as they say.
pub proof fn numbers_and_texts_have_their_length(n: i32, text: Seq<u8>, rest: Seq<u8>, native: &Target)
    requires
        text.len() <= wire::MAX_STRING_BYTES,
        vstd::utf8::valid_utf8(text),
    ensures
        entity::take_value(MetaKind::VarInt, wire::enc_var_int(n) + rest, native) == Some(
            (Value::Raw(wire::enc_var_int(n)), rest),
        ),
        entity::take_value(MetaKind::Str, wire::enc_str(text) + rest, native) == Some(
            (Value::Raw(wire::enc_str(text)), rest),
        ),
{
    let number = wire::enc_var_int(n);
    wire::var_int_round_trip(n, rest);
    types::lemma_var_int_shorter(number + rest);
    lemma_front(number, rest);
    let written = wire::enc_str(text);
    wire::str_round_trip(text, rest);
    lemma_front(written, rest);
}

proof fn lemma_front(front: Seq<u8>, rest: Seq<u8>)
    ensures
        (front + rest).take((front + rest).len() - rest.len()) == front,
        (front + rest).take(front.len() as int) == front,
        (front + rest).skip(front.len() as int) == rest,
{
    assert((front + rest).take(front.len() as int) =~= front);
    assert((front + rest).skip(front.len() as int) =~= rest);
}

/// A position or an owner that may be missing has a flag in front.
pub proof fn missing_values_have_a_flag(kind: MetaKind, bytes: Seq<u8>, rest: Seq<u8>, native: &Target)
    requires
        kind is OptionalBlockPos && bytes.len() == 8 || kind is OptionalUuid && bytes.len() == 16,
    ensures
        entity::take_value(kind, seq![1u8] + bytes + rest, native) == Some((Value::Raw(seq![1u8] + bytes), rest)),
        entity::take_value(kind, seq![0u8] + rest, native) == Some((Value::Raw(seq![0u8]), rest)),
{
    reveal_with_fuel(shape::drop_shape, 2);
    let some = seq![1u8] + bytes + rest;
    wire::two_pieces(seq![1u8], bytes, rest);
    lemma_front(seq![1u8], bytes + rest);
    lemma_front(bytes, rest);
    lemma_front(seq![1u8] + bytes, rest);
    assert(some[0] == 1);
    let none = seq![0u8] + rest;
    lemma_front(seq![0u8], rest);
    assert(none[0] == 0);
}

// --- packets of one entry ------------------------------------------------------------------------------

/// A packet of metadata with one entry: the entity, the entry's index, its serializer and
/// its value, and the end.
pub open spec fn one_entry(id: i32, index: u8, serializer: i32, value: Seq<u8>) -> Seq<u8> {
    wire::enc_var_int(id) + seq![index] + wire::enc_var_int(serializer) + value + seq![0xffu8]
}

/// Whether an entity's entry has a place and a serializer with the client, and is not one
/// of those that are treated apart.
pub open spec fn has_place(
    c: UserConnection,
    id: i32,
    index: u8,
    serializer: i32,
    shown_index: u8,
    shown_serializer: i32,
    tables: &EntityTables,
    to: &Target,
) -> bool {
    let types = tables.types.tables@;
    &&& to.version < version::V_26_3
    &&& index != 0xff
    &&& connection::server_type(c.entity_tracker@, id) matches Some(server) && {
        let client = match connection::client_type(c.entity_tracker@, id) {
            Some(client) => client,
            None => server,
        };
        &&& entity::shown_index(tables.indices@, client, index) == Some(shown_index)
        &&& server != tables.kinds.cushion
        &&& server != tables.kinds.nautilus
        &&& server != tables.kinds.zombie_nautilus
        &&& server != tables.kinds.area_effect_cloud
    }
    &&& entity_data_types::id_for_version(types, serializer, to.version) == Some(shown_serializer)
}

proof fn lemma_entry_read(
    index: u8,
    serializer: i32,
    kind: MetaKind,
    bytes: Seq<u8>,
    value: Value,
    tables: &EntityTables,
    native: &Target,
)
    requires
        index != 0xff,
        entity_data_types::kind_of(tables.types.tables@, serializer) == Some(kind),
        entity::take_value(kind, bytes + seq![0xffu8], native) == Some((value, seq![0xffu8])),
    ensures
        entity::take_entries(
            seq![],
            seq![index] + wire::enc_var_int(serializer) + bytes + seq![0xffu8],
            tables.types.tables@,
            native,
        ) == Some((seq![DataEntry { index, serializer, value }], Seq::<u8>::empty())),
{
    let end = seq![0xffu8];
    let s = seq![index] + wire::enc_var_int(serializer) + bytes + end;
    let entry = DataEntry { index, serializer, value };
    wire::three_pieces(seq![index], wire::enc_var_int(serializer), bytes, end);
    let t = wire::enc_var_int(serializer) + (bytes + end);
    assert((seq![index] + t).skip(1) =~= t);
    wire::var_int_round_trip(serializer, bytes + end);
    assert(s.len() > end.len());
    assert(Seq::<DataEntry>::empty().push(entry) =~= seq![entry]);
    assert(end.skip(1) =~= Seq::<u8>::empty());
    assert(entity::take_entries(seq![entry], end, tables.types.tables@, native) == Some(
        (seq![entry], Seq::<u8>::empty()),
    ));
}

proof fn lemma_entry_kept(
    c: UserConnection,
    id: i32,
    entry: DataEntry,
    shown: DataEntry,
    bytes: Seq<u8>,
    shown_bytes: Seq<u8>,
    kind: MetaKind,
    hashes: Seq<ComponentHash>,
    tables: &EntityTables,
    native: &Target,
    to: &Target,
)
    requires
        to.version < version::V_26_3,
        entry.index != 0xff,
        entity_data_types::kind_of(tables.types.tables@, entry.serializer) == Some(kind),
        entity::take_value(kind, bytes + seq![0xffu8], native) == Some((entry.value, seq![0xffu8])),
        entity::types_of(c, id) matches Some(types) && entity::entry_kept(
            c.backups@,
            types.0,
            types.1,
            entry,
            entity::time_of(c),
            hashes,
            tables,
            native,
            to,
        ) == (c.backups@, Some(shown)),
        entity::enc_value(shown.value) == Some(shown_bytes),
    ensures
        entity::data_kept(
            c,
            one_entry(id, entry.index, entry.serializer, bytes),
            hashes,
            tables,
            native,
            to,
        ) == (
            c.backups@,
            Some((one_entry(id, shown.index, shown.serializer, shown_bytes), Seq::<u8>::empty())),
        ),
{
    let tail = seq![entry.index] + wire::enc_var_int(entry.serializer) + bytes + seq![0xffu8];
    lemma_entry_read(entry.index, entry.serializer, kind, bytes, entry.value, tables, native);
    wire::var_int_round_trip(id, tail);
    wire::four_pieces(
        wire::enc_var_int(id),
        seq![entry.index],
        wire::enc_var_int(entry.serializer),
        bytes,
        seq![0xffu8],
    );
    wire::three_pieces(seq![entry.index], wire::enc_var_int(entry.serializer), bytes, seq![0xffu8]);
    let types = entity::types_of(c, id).unwrap();
    let entries = seq![entry];
    let done = Seq::<DataEntry>::empty();
    assert(entity::with_entry(done, shown) =~= seq![shown]);
    assert(entity::entries_kept(
        c.backups@,
        seq![shown],
        types,
        entries,
        1,
        entity::time_of(c),
        hashes,
        tables,
        native,
        to,
    ) == (c.backups@, seq![shown]));
    assert(entity::entries_kept(
        c.backups@,
        done,
        types,
        entries,
        0,
        entity::time_of(c),
        hashes,
        tables,
        native,
        to,
    ) == (c.backups@, seq![shown]));
    assert(seq![shown].drop_last() =~= done);
    let head = seq![shown.index];
    let number = wire::enc_var_int(shown.serializer);
    assert(entity::enc_each(done) == Seq::<u8>::empty());
    wire::no_piece(head + number + shown_bytes);
    assert(entity::enc_each(seq![shown]) == head + number + shown_bytes);
    wire::three_pieces(head, number, shown_bytes, seq![0xffu8]);
    wire::four_pieces(wire::enc_var_int(id), head, number, shown_bytes, seq![0xffu8]);
}

/// A painting goes to a client under the client's own number: the server's holder, which is
/// one more than its number, becomes one more than the client's.
pub proof fn paintings_are_renumbered(
    c: UserConnection,
    id: i32,
    index: u8,
    serializer: i32,
    shown_index: u8,
    shown_serializer: i32,
    painting: i32,
    shown: i32,
    hashes: Seq<ComponentHash>,
    tables: &EntityTables,
    native: &Target,
    to: &Target,
)
    requires
        has_place(c, id, index, serializer, shown_index, shown_serializer, tables, to),
        entity_data_types::kind_of(tables.types.tables@, serializer) == Some(MetaKind::PaintingVariant),
        0 <= painting < i32::MAX,
        mapping::mapped(to.ids.paintings@, painting) == Some(shown),
        shown < i32::MAX,
    ensures
        entity::data_kept(
            c,
            one_entry(id, index, serializer, wire::enc_var_int((painting + 1) as i32)),
            hashes,
            tables,
            native,
            to,
        ) == (
            c.backups@,
            Some(
                (
                    one_entry(id, shown_index, shown_serializer, wire::enc_var_int((shown + 1) as i32)),
                    Seq::<u8>::empty(),
                ),
            ),
        ),
{
    numbers_read_back((painting + 1) as i32, seq![0xffu8], native);
    lemma_entry_kept(
        c,
        id,
        DataEntry { index, serializer, value: Value::PaintingVariant((painting + 1) as i32) },
        DataEntry {
            index: shown_index,
            serializer: shown_serializer,
            value: Value::PaintingVariant((shown + 1) as i32),
        },
        wire::enc_var_int((painting + 1) as i32),
        wire::enc_var_int((shown + 1) as i32),
        MetaKind::PaintingVariant,
        hashes,
        tables,
        native,
        to,
    );
}

/// A block state goes to a client under the client's own number, and as air where it has
/// none. Where it may be missing, zero stays.
pub proof fn block_states_are_renumbered(
    c: UserConnection,
    id: i32,
    index: u8,
    serializer: i32,
    shown_index: u8,
    shown_serializer: i32,
    optional: bool,
    state: i32,
    hashes: Seq<ComponentHash>,
    tables: &EntityTables,
    native: &Target,
    to: &Target,
)
    requires
        has_place(c, id, index, serializer, shown_index, shown_serializer, tables, to),
        entity_data_types::kind_of(tables.types.tables@, serializer) == Some(
            if optional {
                MetaKind::OptionalBlockState
            } else {
                MetaKind::BlockState
            },
        ),
    ensures
        ({
            let shown = if optional && state == 0 {
                0i32
            } else {
                match mapping::mapped(to.ids.block_states@, state) {
                    Some(shown) => shown,
                    None => 0i32,
                }
            };
            entity::data_kept(
                c,
                one_entry(id, index, serializer, wire::enc_var_int(state)),
                hashes,
                tables,
                native,
                to,
            ) == (
                c.backups@,
                Some(
                    (one_entry(id, shown_index, shown_serializer, wire::enc_var_int(shown)), Seq::<u8>::empty()),
                ),
            )
        }),
{
    let shown = if optional && state == 0 {
        0i32
    } else {
        match mapping::mapped(to.ids.block_states@, state) {
            Some(shown) => shown,
            None => 0i32,
        }
    };
    numbers_read_back(state, seq![0xffu8], native);
    lemma_entry_kept(
        c,
        id,
        DataEntry {
            index,
            serializer,
            value: if optional {
                Value::OptionalBlockState(state)
            } else {
                Value::BlockState(state)
            },
        },
        DataEntry {
            index: shown_index,
            serializer: shown_serializer,
            value: if optional {
                Value::OptionalBlockState(shown)
            } else {
                Value::BlockState(shown)
            },
        },
        wire::enc_var_int(state),
        wire::enc_var_int(shown),
        if optional {
            MetaKind::OptionalBlockState
        } else {
            MetaKind::BlockState
        },
        hashes,
        tables,
        native,
        to,
    );
}

/// A value that has nothing to be renumbered reaches the client as it is, under the client's
/// index and serializer.
pub proof fn raw_values_reach_the_client(
    c: UserConnection,
    id: i32,
    index: u8,
    serializer: i32,
    shown_index: u8,
    shown_serializer: i32,
    kind: MetaKind,
    bytes: Seq<u8>,
    hashes: Seq<ComponentHash>,
    tables: &EntityTables,
    native: &Target,
    to: &Target,
)
    requires
        has_place(c, id, index, serializer, shown_index, shown_serializer, tables, to),
        entity_data_types::kind_of(tables.types.tables@, serializer) == Some(kind),
        is_raw(kind) && !(kind is VarLong),
        entity::take_value(kind, bytes + seq![0xffu8], native) == Some((Value::Raw(bytes), seq![0xffu8])),
    ensures
        entity::data_kept(c, one_entry(id, index, serializer, bytes), hashes, tables, native, to) == (
            c.backups@,
            Some((one_entry(id, shown_index, shown_serializer, bytes), Seq::<u8>::empty())),
        ),
{
    lemma_entry_kept(
        c,
        id,
        DataEntry { index, serializer, value: Value::Raw(bytes) },
        DataEntry { index: shown_index, serializer: shown_serializer, value: Value::Raw(bytes) },
        bytes,
        bytes,
        kind,
        hashes,
        tables,
        native,
        to,
    );
}

// --- entries that are treated apart ----------------------------------------------------------------------

/// Up to 1.21.9 the time at which a wolf or a bee calms down is shown as the ticks that are
/// left until then: none where it has passed.
pub proof fn anger_is_shown_as_what_is_left(
    c: UserConnection,
    id: i32,
    index: u8,
    serializer: i32,
    shown_index: u8,
    shown_serializer: i32,
    bytes: Seq<u8>,
    until: i64,
    now: i64,
    left: i32,
    hashes: Seq<ComponentHash>,
    tables: &EntityTables,
    native: &Target,
    to: &Target,
)
    requires
        to.version <= version::V_1_21_9,
        c.game_time == Some(now),
        connection::server_type(c.entity_tracker@, id) matches Some(server) && {
            let client = match connection::client_type(c.entity_tracker@, id) {
                Some(client) => client,
                None => server,
            };
            &&& server == tables.kinds.wolf && index == 22 || server == tables.kinds.bee && index == 19
            &&& server != tables.kinds.cushion && server != tables.kinds.nautilus && server
                != tables.kinds.zombie_nautilus && server != tables.kinds.area_effect_cloud
            &&& entity::shown_index(tables.indices@, client, index) == Some(shown_index)
        },
        entity_data_types::kind_of(tables.types.tables@, serializer) == Some(MetaKind::VarLong),
        entity_data_types::id_for_name(tables.types.tables@, wire::key("int"), to.version) == Some(shown_serializer),
        entity::take_value(MetaKind::VarLong, bytes + seq![0xffu8], native) == Some((Value::Raw(bytes), seq![0xffu8])),
        wire::take_var_long(bytes) == Some((until, Seq::<u8>::empty())),
        until <= now ==> left == 0,
        now < until <= now + i32::MAX ==> left == until - now,
        until > now + i32::MAX ==> left == i32::MAX,
    ensures
        entity::data_kept(c, one_entry(id, index, serializer, bytes), hashes, tables, native, to) == (
            c.backups@,
            Some((one_entry(id, shown_index, shown_serializer, wire::enc_var_int(left)), Seq::<u8>::empty())),
        ),
{
    assert(entity::ticks_left(until, now) == left);
    lemma_entry_kept(
        c,
        id,
        DataEntry { index, serializer, value: Value::Raw(bytes) },
        DataEntry { index: shown_index, serializer: shown_serializer, value: Value::Raw(wire::enc_var_int(left)) },
        bytes,
        wire::enc_var_int(left),
        MetaKind::VarLong,
        hashes,
        tables,
        native,
        to,
    );
}

/// Up to 1.20.3 a cloud of effects has its colour, without the alpha, as its tenth entry: the
/// server has it as the colour of the particle in the eleventh.
pub proof fn clouds_show_their_colour(
    c: UserConnection,
    id: i32,
    serializer: i32,
    shown_serializer: i32,
    particle_id: i32,
    colour: i32,
    hashes: Seq<ComponentHash>,
    tables: &EntityTables,
    native: &Target,
    to: &Target,
)
    requires
        to.version <= version::V_1_20_3,
        connection::server_type(c.entity_tracker@, id) == Some(tables.kinds.area_effect_cloud),
        entity_data_types::kind_of(tables.types.tables@, serializer) == Some(MetaKind::Particle),
        entity_data_types::id_for_name(tables.types.tables@, wire::key("int"), to.version) == Some(shown_serializer),
        particle::is_entity_effect(particle_id, native.cat),
        particle::layout_of(particle_id, version::V_26_3, native.cat) == Layout::Color,
    ensures
        entity::data_kept(
            c,
            one_entry(id, 10, serializer, wire::enc_var_int(particle_id) + wire::enc_i32(colour)),
            hashes,
            tables,
            native,
            to,
        ) == (
            c.backups@,
            Some(
                (
                    one_entry(
                        id,
                        9,
                        shown_serializer,
                        wire::enc_var_int((wire::bits_of_i32(colour) % 0x100_0000) as i32),
                    ),
                    Seq::<u8>::empty(),
                ),
            ),
        ),
{
    let bytes = wire::enc_var_int(particle_id) + wire::enc_i32(colour);
    let end = seq![0xffu8];
    wire::two_pieces(wire::enc_var_int(particle_id), wire::enc_i32(colour), end);
    wire::var_int_round_trip(particle_id, wire::enc_i32(colour) + end);
    particle_bytes::plain_data_is_kept(colour, 0, native, end);
    let shown = wire::enc_var_int((wire::bits_of_i32(colour) % 0x100_0000) as i32);
    lemma_entry_kept(
        c,
        id,
        DataEntry {
            index: 10,
            serializer,
            value: Value::Particle(ParticleView { id: particle_id, data: Options::Color(colour) }),
        },
        DataEntry { index: 9, serializer: shown_serializer, value: Value::Raw(shown) },
        bytes,
        shown,
        MetaKind::Particle,
        hashes,
        tables,
        native,
        to,
    );
}

// --- attributes --------------------------------------------------------------------------------------------

proof fn lemma_attribute_packet(
    id: i32,
    head: Seq<u8>,
    number: Option<u32>,
    tail: Seq<u8>,
    shown: Seq<u8>,
    names: Seq<Vec<u8>>,
    to: &Target,
)
    requires
        version::V_1_17 <= to.version < version::V_26_3,
        entity::take_attribute_id(head + tail, names, to.version) == Some((number, tail)),
        shape::take_shape(entity::attribute_tail(to.version), tail, to.cat, to.version) == Some(
            (tail, Seq::<u8>::empty()),
        ),
        entity::attribute_shown((entity::AttributeView { id: number, head, tail }), to) == Some(Some(shown)),
    ensures
        entity::attributes_written(wire::enc_var_int(id) + (seq![1u8] + (head + tail)), names, to) == Some(
            wire::enc_var_int(id) + seq![1u8] + shown,
        ),
{
    let s = head + tail;
    let none = Seq::<u8>::empty();
    assert(wire::enc_var_int(1) =~= seq![1u8]);
    assert(wire::enc_len(1) == wire::enc_var_int(1));
    wire::var_int_round_trip(id, seq![1u8] + s);
    wire::var_int_round_trip(1, s);
    assert(s.take(s.len() - tail.len()) =~= head);
    let attribute = entity::AttributeView { id: number, head, tail };
    assert(entity::take_attribute(s, names, to) == Some((attribute, none)));
    wire::no_piece(shown);
    assert(entity::attributes_shown(1, shown, 0, none, names, to) == Some((1nat, shown, none)));
    assert(entity::attributes_shown(0, none, 1, s, names, to) == Some((1nat, shown, none)));
}

/// From 1.20.5 on an attribute is named by its number, which becomes the client's; its value
/// and its modifiers stay.
pub proof fn attributes_are_renumbered(
    id: i32,
    attribute: i32,
    shown: i32,
    tail: Seq<u8>,
    names: Seq<Vec<u8>>,
    to: &Target,
)
    requires
        version::V_1_20_5 <= to.version < version::V_26_3,
        mapping::mapped(to.ids.attributes@, attribute) == Some(shown),
        shape::take_shape(entity::attribute_tail(to.version), tail, to.cat, to.version) == Some(
            (tail, Seq::<u8>::empty()),
        ),
    ensures
        entity::attributes_written(
            wire::enc_var_int(id) + (seq![1u8] + (wire::enc_var_int(attribute) + tail)),
            names,
            to,
        ) == Some(wire::enc_var_int(id) + seq![1u8] + (wire::enc_var_int(shown) + tail)),
{
    wire::var_int_round_trip(attribute, tail);
    lemma_attribute_packet(
        id,
        wire::enc_var_int(attribute),
        Some(attribute as u32),
        tail,
        wire::enc_var_int(shown) + tail,
        names,
        to,
    );
}

/// From 1.17 to 1.20.3 an attribute is named by its name, which stays, as do its value and
/// its modifiers.
pub proof fn attributes_keep_their_names(
    id: i32,
    name: Seq<u8>,
    attribute: i32,
    shown: i32,
    tail: Seq<u8>,
    names: Seq<Vec<u8>>,
    to: &Target,
)
    requires
        version::V_1_17 <= to.version < version::V_1_20_5,
        name.len() <= wire::MAX_STRING_BYTES,
        vstd::utf8::valid_utf8(name),
        catalog::index_of(names, text::bare(name)) == Some(attribute),
        mapping::mapped(to.ids.attributes@, attribute) == Some(shown),
        shape::take_shape(entity::attribute_tail(to.version), tail, to.cat, to.version) == Some(
            (tail, Seq::<u8>::empty()),
        ),
    ensures
        entity::attributes_written(
            wire::enc_var_int(id) + (seq![1u8] + (wire::enc_str(name) + tail)),
            names,
            to,
        ) == Some(wire::enc_var_int(id) + seq![1u8] + (wire::enc_str(name) + tail)),
{
    wire::str_round_trip(name, tail);
    lemma_attribute_packet(
        id,
        wire::enc_str(name),
        Some(attribute as u32),
        tail,
        wire::enc_str(name) + tail,
        names,
        to,
    );
}

} // verus!
