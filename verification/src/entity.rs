//! Entity metadata and attributes.
use vstd::prelude::*;
use crate::catalog;
use crate::client_item;
use crate::connection;
use crate::connection::UserConnection;
use crate::entity_data_types;
use crate::entity_data_types::MetaKind;
use crate::entity_data_types::MetaTypes;
use crate::entity_data_types::TypeTable;
use crate::item_backup;
use crate::item_backup::ComponentHash;
use crate::item_backup::Row;
use crate::item_component;
use crate::mapping;
use crate::particle;
use crate::particle::Options;
use crate::particle::Particle;
use crate::particle::ParticleData;
use crate::particle::ParticleView;
use crate::shape;
use crate::shape::Shape;
use crate::target::Target;
use crate::text;
use crate::version;
use crate::version::Version;
use crate::wire;
use crate::wire::ReadingError;
use crate::wire::TranslateError;
use vstd::slice::slice_subrange;
use vstd::slice::slice_to_vec;

verus! {

/// Where the server has a wolf's and a bee's time of anger.
pub const WOLF_ANGER_END_TIME_INDEX_26_3: u8 = 22;
pub const BEE_ANGER_END_TIME_INDEX_26_3: u8 = 19;
/// What stands behind the last entry.
pub const TERMINATOR: u8 = 0xff;

// --- what the server's release knows of entities --------------------------------------------

/// The kinds of entities that are treated apart.
pub struct EntityKinds {
    pub area_effect_cloud: u16,
    pub bee: u16,
    pub cushion: u16,
    pub falling_block: u16,
    pub nautilus: u16,
    pub wolf: u16,
    pub zombie_nautilus: u16,
}

/// Where a client has an entry of an entity; an entry without a row is unknown to
/// it.
pub struct TrackedIndex {
    pub entity_type: u16,
    pub index: u8,
    pub shown: u8,
}

pub struct EntityTables {
    pub types: MetaTypes,
    pub kinds: EntityKinds,
    /// The entries that the client of the target has.
    pub indices: Vec<TrackedIndex>,
    /// The bare name that attributes had before 1.20.5, in the order of their ids.
    pub attribute_names: Vec<Vec<u8>>,
}

pub open spec fn index_from(rows: Seq<TrackedIndex>, entity_type: u16, index: u8, i: int) -> Option<u8>
    decreases rows.len() - i,
{
    if i < 0 || i >= rows.len() {
        None
    } else if rows[i].entity_type == entity_type && rows[i].index == index {
        Some(rows[i].shown)
    } else {
        index_from(rows, entity_type, index, i + 1)
    }
}

/// Where the client has an entry.
pub open spec fn shown_index(rows: Seq<TrackedIndex>, entity_type: u16, index: u8) -> Option<u8> {
    index_from(rows, entity_type, index, 0)
}

#[verifier::loop_isolation(false)]
fn find_index(rows: &Vec<TrackedIndex>, entity_type: u16, index: u8) -> (res: Option<u8>)
    ensures
        res == shown_index(rows@, entity_type, index),
{
    let mut i: usize = 0;
    while i < rows.len()
        invariant
            i <= rows.len(),
            shown_index(rows@, entity_type, index) == index_from(rows@, entity_type, index, i as int),
        decreases rows.len() - i,
    {
        if rows[i].entity_type == entity_type && rows[i].index == index {
            return Some(rows[i].shown);
        }
        i = i + 1;
    }
    None
}

// --- entries ------------------------------------------------------------------------------------

/// The value of an entry. What has to be renumbered is taken apart, all else is
/// kept as its bytes.
pub enum MetaValue {
    Raw(Vec<u8>),
    Item(Vec<u8>),
    BlockState(i32),
    OptionalBlockState(i32),
    Particle(Particle),
    Particles(Vec<Particle>),
    PaintingVariant(i32),
}

#[verifier::ext_equal]
pub enum Value {
    Raw(Seq<u8>),
    Item(Seq<u8>),
    BlockState(i32),
    OptionalBlockState(i32),
    Particle(ParticleView),
    Particles(Seq<ParticleView>),
    PaintingVariant(i32),
}

pub open spec fn particle_views(particles: Seq<Particle>) -> Seq<ParticleView> {
    particles.map_values(|particle: Particle| particle@)
}

impl View for MetaValue {
    type V = Value;

    open spec fn view(&self) -> Value {
        match *self {
            MetaValue::Raw(bytes) => Value::Raw(bytes@),
            MetaValue::Item(bytes) => Value::Item(bytes@),
            MetaValue::BlockState(state) => Value::BlockState(state),
            MetaValue::OptionalBlockState(state) => Value::OptionalBlockState(state),
            MetaValue::Particle(particle) => Value::Particle(particle@),
            MetaValue::Particles(particles) => Value::Particles(particle_views(particles@)),
            MetaValue::PaintingVariant(variant) => Value::PaintingVariant(variant),
        }
    }
}

/// An entry of an entity's metadata.
pub struct EntityDataEntry {
    pub index: u8,
    pub serializer: i32,
    pub value: MetaValue,
}

#[verifier::ext_equal]
pub struct DataEntry {
    pub index: u8,
    pub serializer: i32,
    pub value: Value,
}

impl View for EntityDataEntry {
    type V = DataEntry;

    open spec fn view(&self) -> DataEntry {
        DataEntry { index: self.index, serializer: self.serializer, value: self.value@ }
    }
}

pub open spec fn entry_views(entries: Seq<EntityDataEntry>) -> Seq<DataEntry> {
    entries.map_values(|entry: EntityDataEntry| entry@)
}

// --- reading ----------------------------------------------------------------------------------------

/// The bytes of a value that is kept as it stands, by its kind.
pub open spec fn raw_layout(kind: MetaKind) -> Option<Shape> {
    match kind {
        MetaKind::Byte => Some(Shape::Fixed(1)),
        MetaKind::Bool => Some(Shape::Fixed(1)),
        MetaKind::VarInt => Some(Shape::VarInt),
        MetaKind::Float => Some(Shape::Fixed(4)),
        MetaKind::Str => Some(Shape::Str),
        MetaKind::Component => Some(Shape::Nbt),
        MetaKind::OptionalComponent => Some(shape::opt(Shape::Nbt)),
        MetaKind::Rotations => Some(Shape::Fixed(12)),
        MetaKind::BlockPos => Some(Shape::Fixed(8)),
        MetaKind::OptionalBlockPos => Some(shape::opt(Shape::Fixed(8))),
        MetaKind::OptionalUuid => Some(shape::opt(Shape::Fixed(16))),
        MetaKind::VillagerData => Some(shape::three(Shape::VarInt, Shape::VarInt, Shape::VarInt)),
        MetaKind::Vector3 => Some(Shape::Fixed(12)),
        MetaKind::Quaternion => Some(Shape::Fixed(16)),
        _ => None,
    }
}

fn layout_of_kind(kind: MetaKind) -> (res: Option<Shape>)
    ensures
        res == raw_layout(kind),
{
    match kind {
        MetaKind::Byte => Some(Shape::Fixed(1)),
        MetaKind::Bool => Some(Shape::Fixed(1)),
        MetaKind::VarInt => Some(Shape::VarInt),
        MetaKind::Float => Some(Shape::Fixed(4)),
        MetaKind::Str => Some(Shape::Str),
        MetaKind::Component => Some(Shape::Nbt),
        MetaKind::OptionalComponent => Some(shape::opt(Shape::Nbt)),
        MetaKind::Rotations => Some(Shape::Fixed(12)),
        MetaKind::BlockPos => Some(Shape::Fixed(8)),
        MetaKind::OptionalBlockPos => Some(shape::opt(Shape::Fixed(8))),
        MetaKind::OptionalUuid => Some(shape::opt(Shape::Fixed(16))),
        MetaKind::VillagerData => Some(shape::three(Shape::VarInt, Shape::VarInt, Shape::VarInt)),
        MetaKind::Vector3 => Some(Shape::Fixed(12)),
        MetaKind::Quaternion => Some(Shape::Fixed(16)),
        _ => None,
    }
}

/// The bytes of a VarLong.
pub open spec fn take_raw_long(s: Seq<u8>) -> Option<(Seq<u8>, Seq<u8>)> {
    match wire::take_var_long(s) {
        Some((value, rest)) => if rest.len() <= s.len() {
            Some((s.take(s.len() - rest.len()), rest))
        } else {
            None
        },
        None => None,
    }
}

/// `n` particles, behind those that were read.
pub open spec fn take_particles(done: Seq<ParticleView>, n: nat, s: Seq<u8>, native: &Target) -> Option<
    (Seq<ParticleView>, Seq<u8>),
>
    decreases n,
{
    if n == 0 {
        Some((done, s))
    } else {
        match particle::take_particle(s, native) {
            Ok((particle, rest)) => take_particles(done.push(particle), (n - 1) as nat, rest, native),
            Err(_) => None,
        }
    }
}

/// A number, as the value that it stands for.
pub open spec fn numbered(kind: MetaKind, n: i32) -> Value {
    match kind {
        MetaKind::BlockState => Value::BlockState(n),
        MetaKind::OptionalBlockState => Value::OptionalBlockState(n),
        _ => Value::PaintingVariant(n),
    }
}

/// A value as the server writes it.
pub open spec fn take_value(kind: MetaKind, s: Seq<u8>, native: &Target) -> Option<(Value, Seq<u8>)> {
    match kind {
        MetaKind::VarLong => match take_raw_long(s) {
            Some((bytes, rest)) => Some((Value::Raw(bytes), rest)),
            None => None,
        },
        MetaKind::Item => match shape::take_shape(Shape::Item, s, native.cat, version::V_26_3) {
            Some((bytes, rest)) => Some((Value::Item(bytes), rest)),
            None => None,
        },
        MetaKind::BlockState | MetaKind::OptionalBlockState | MetaKind::PaintingVariant => match wire::take_var_int(
            s,
        ) {
            Some((n, rest)) => Some((numbered(kind, n), rest)),
            None => None,
        },
        MetaKind::Particle => match particle::take_particle(s, native) {
            Ok((particle, rest)) => Some((Value::Particle(particle), rest)),
            Err(_) => None,
        },
        MetaKind::Particles => match wire::take_var_int(s) {
            Some((n, t)) => match take_particles(seq![], shape::times(n), t, native) {
                Some((particles, rest)) => Some((Value::Particles(particles), rest)),
                None => None,
            },
            None => None,
        },
        _ => match shape::take_shape(raw_layout(kind).unwrap(), s, native.cat, version::V_26_3) {
            Some((bytes, rest)) => Some((Value::Raw(bytes), rest)),
            None => None,
        },
    }
}

/// The entries of a list up to its end, behind those that were read.
pub open spec fn take_entries(done: Seq<DataEntry>, s: Seq<u8>, tables: Seq<TypeTable>, native: &Target) -> Option<
    (Seq<DataEntry>, Seq<u8>),
>
    decreases s.len(),
{
    match wire::take_u8(s) {
        Some((index, s1)) => if index == TERMINATOR {
            Some((done, s1))
        } else {
            match wire::take_var_int(s1) {
                Some((serializer, s2)) => match entity_data_types::kind_of(tables, serializer) {
                    Some(kind) => match take_value(kind, s2, native) {
                        Some((value, rest)) => if rest.len() < s.len() {
                            take_entries(done.push(DataEntry { index, serializer, value }), rest, tables, native)
                        } else {
                            None
                        },
                        None => None,
                    },
                    None => None,
                },
                None => None,
            }
        },
        None => None,
    }
}

#[verifier::loop_isolation(false)]
fn read_particles(r: &mut &[u8], native: &Target) -> (res: Result<Vec<Particle>, ReadingError>)
    ensures
        match wire::take_var_int(old(r)@) {
            Some((n, t)) => match take_particles(seq![], shape::times(n), t, native) {
                Some((particles, rest)) => res is Ok && particle_views(res->Ok_0@) == particles && final(r)@ == rest,
                None => res is Err,
            },
            None => res is Err,
        },
{
    let n: i32 = wire::get_var_int(r)?;
    let ghost wanted = take_particles(seq![], shape::times(n), r@, native);
    let mut particles: Vec<Particle> = Vec::new();
    let mut left: i32 = n;
    assert(particle_views(particles@) =~= seq![]);
    while left > 0
        invariant
            wanted == take_particles(particle_views(particles@), shape::times(left), r@, native),
        decreases left,
    {
        let particle: Particle = particle::get_particle(r, native)?;
        let ghost before = particles@;
        particles.push(particle);
        assert(particle_views(particles@) =~= particle_views(before).push(particle@));
        left = left - 1;
    }
    Ok(particles)
}

/// Reads a value as the server writes it.
pub fn read_value(kind: MetaKind, r: &mut &[u8], native: &Target) -> (res: Result<MetaValue, ReadingError>)
    ensures
        match take_value(kind, old(r)@, native) {
            Some((value, rest)) => res is Ok && res->Ok_0@ == value && final(r)@ == rest,
            None => res is Err,
        },
{
    let source: &[u8] = *r;
    match kind {
        MetaKind::VarLong => {
            let value: i64 = wire::get_var_long(r)?;
            if r.len() > source.len() {
                return Err(ReadingError::Malformed);
            }
            let bytes: &[u8] = slice_subrange(source, 0, source.len() - r.len());
            assert(bytes@ =~= source@.take(source@.len() - r@.len()));
            Ok(MetaValue::Raw(slice_to_vec(bytes)))
        },
        MetaKind::Item => {
            let bytes: &[u8] = shape::get_shape(&Shape::Item, r, native.cat, version::V_26_3)?;
            Ok(MetaValue::Item(slice_to_vec(bytes)))
        },
        MetaKind::BlockState => {
            let n: i32 = wire::get_var_int(r)?;
            Ok(MetaValue::BlockState(n))
        },
        MetaKind::OptionalBlockState => {
            let n: i32 = wire::get_var_int(r)?;
            Ok(MetaValue::OptionalBlockState(n))
        },
        MetaKind::PaintingVariant => {
            let n: i32 = wire::get_var_int(r)?;
            Ok(MetaValue::PaintingVariant(n))
        },
        MetaKind::Particle => {
            let particle: Particle = particle::get_particle(r, native)?;
            Ok(MetaValue::Particle(particle))
        },
        MetaKind::Particles => {
            let particles: Vec<Particle> = read_particles(r, native)?;
            Ok(MetaValue::Particles(particles))
        },
        _ => match layout_of_kind(kind) {
            Some(layout) => {
                let bytes: &[u8] = shape::get_shape(&layout, r, native.cat, version::V_26_3)?;
                Ok(MetaValue::Raw(slice_to_vec(bytes)))
            },
            None => Err(ReadingError::Malformed),
        },
    }
}

/// Reads a list of entries as the server writes it.
#[verifier::loop_isolation(false)]
pub fn read_entries(r: &mut &[u8], types: &MetaTypes, native: &Target) -> (res: Result<
    Vec<EntityDataEntry>,
    ReadingError,
>)
    ensures
        match take_entries(seq![], old(r)@, types.tables@, native) {
            Some((entries, rest)) => res is Ok && entry_views(res->Ok_0@) == entries && final(r)@ == rest,
            None => res is Err,
        },
{
    let ghost wanted = take_entries(seq![], r@, types.tables@, native);
    let mut entries: Vec<EntityDataEntry> = Vec::new();
    assert(entry_views(entries@) =~= seq![]);
    loop
        invariant
            wanted == take_entries(entry_views(entries@), r@, types.tables@, native),
        decreases r@.len(),
    {
        let length: usize = r.len();
        let index: u8 = wire::get_u8(r)?;
        if index == TERMINATOR {
            return Ok(entries);
        }
        let serializer: i32 = wire::get_var_int(r)?;
        let kind: MetaKind = match types.meta_kind(serializer) {
            Some(kind) => kind,
            None => {
                return Err(ReadingError::Malformed);
            },
        };
        let value: MetaValue = read_value(kind, r, native)?;
        if r.len() >= length {
            return Err(ReadingError::Malformed);
        }
        let ghost before = entries@;
        let entry: EntityDataEntry = EntityDataEntry { index, serializer, value };
        entries.push(entry);
        assert(entry_views(entries@) =~= entry_views(before).push(entry@));
    }
}

// --- values for the client ------------------------------------------------------------------------

/// A block state for the client; one that it lacks becomes air.
pub open spec fn state_shown(state: i32, to: &Target) -> i32 {
    match mapping::mapped(to.ids.block_states@, state) {
        Some(shown) => shown,
        None => 0,
    }
}

pub fn block_state(state: i32, to: &Target) -> (res: i32)
    ensures
        res == state_shown(state, to),
{
    match to.ids.block_states.map_id(state) {
        Some(shown) => shown,
        None => 0,
    }
}

/// The particles of a list that the client can be told of, from the i-th on, with
/// how many there are, behind those that were written.
pub open spec fn particles_kept(
    rows: Seq<Row>,
    done: Seq<u8>,
    count: nat,
    particles: Seq<ParticleView>,
    i: int,
    hashes: Seq<ComponentHash>,
    native: &Target,
    to: &Target,
) -> (Seq<Row>, nat, Seq<u8>)
    decreases particles.len() - i,
{
    if i < 0 || i >= particles.len() {
        (rows, count, done)
    } else {
        let (kept, written) = particle::particle_kept(rows, particles[i], hashes, native, to);
        match written {
            Some(bytes) => particles_kept(kept, done + bytes, count + 1, particles, i + 1, hashes, native, to),
            None => particles_kept(kept, done, count, particles, i + 1, hashes, native, to),
        }
    }
}

/// A value for the client: nothing where the client cannot be told of it. Zero is no
/// block state where one may be missing, and stays. A variant of zero is spelled
/// out, and cannot be renumbered.
pub open spec fn value_kept(
    rows: Seq<Row>,
    value: Value,
    hashes: Seq<ComponentHash>,
    native: &Target,
    to: &Target,
) -> (Seq<Row>, Option<Value>) {
    match value {
        Value::Raw(bytes) => (rows, Some(value)),
        Value::Item(bytes) => {
            let (kept, written) = client_item::stack_kept(rows, bytes, hashes, native, to);
            (
                kept,
                match written {
                    Some((stack, rest)) => if rest.len() == 0 {
                        Some(Value::Item(stack))
                    } else {
                        None
                    },
                    None => None,
                },
            )
        },
        Value::BlockState(state) => (rows, Some(Value::BlockState(state_shown(state, to)))),
        Value::OptionalBlockState(state) => (
            rows,
            Some(
                Value::OptionalBlockState(
                    if state == 0 {
                        0
                    } else {
                        state_shown(state, to)
                    },
                ),
            ),
        ),
        Value::Particle(particle) => {
            let (kept, written) = particle::particle_kept(rows, particle, hashes, native, to);
            (
                kept,
                match written {
                    Some(bytes) => Some(Value::Raw(bytes)),
                    None => None,
                },
            )
        },
        Value::Particles(particles) => {
            let (kept, count, body) = particles_kept(rows, seq![], 0, particles, 0, hashes, native, to);
            (kept, Some(Value::Raw(wire::enc_len(count) + body)))
        },
        Value::PaintingVariant(variant) => (
            rows,
            if variant <= 0 {
                None
            } else {
                match item_component::next_int(mapping::mapped(to.ids.paintings@, (variant - 1) as i32)) {
                    Some(shown) => Some(Value::PaintingVariant(shown)),
                    None => None,
                }
            },
        ),
    }
}

#[verifier::loop_isolation(false)]
fn rewrite_particles(
    particles: &Vec<Particle>,
    connection: &mut UserConnection,
    hashes: &Vec<ComponentHash>,
    native: &Target,
    to: &Target,
) -> (res: Vec<u8>)
    ensures
        ({
            let (kept, count, body) = particles_kept(
                old(connection).backups@,
                seq![],
                0,
                particle_views(particles@),
                0,
                hashes@,
                native,
                to,
            );
            final(connection).backups@ == kept && res@ == wire::enc_len(count) + body
        }),
        item_backup::same_but_backups(*final(connection), *old(connection)),
{
    let ghost all = particle_views(particles@);
    let ghost wanted = particles_kept(connection.backups@, seq![], 0, all, 0, hashes@, native, to);
    let mut body: Vec<u8> = Vec::new();
    let mut count: usize = 0;
    let mut i: usize = 0;
    while i < particles.len()
        invariant
            i <= particles.len(),
            count <= i,
            item_backup::same_but_backups(*connection, *old(connection)),
            wanted == particles_kept(
                connection.backups@,
                body@,
                count as nat,
                all,
                i as int,
                hashes@,
                native,
                to,
            ),
        decreases particles.len() - i,
    {
        if particle::write_particle_with_connection(&mut body, &particles[i], hashes, native, to, connection) {
            count = count + 1;
        }
        i = i + 1;
    }
    let mut out: Vec<u8> = Vec::new();
    wire::write_len(&mut out, count);
    wire::write_bytes(&mut out, body.as_slice());
    assert(out@ =~= wire::enc_len(count as nat) + body@);
    out
}

/// Gives a value for the client; `None` where the client cannot be told of it.
#[verifier::spinoff_prover]
#[verifier::rlimit(60)]
pub fn rewrite_value(
    value: &MetaValue,
    connection: &mut UserConnection,
    hashes: &Vec<ComponentHash>,
    native: &Target,
    to: &Target,
) -> (res: Option<MetaValue>)
    ensures
        ({
            let (kept, wanted) = value_kept(old(connection).backups@, value@, hashes@, native, to);
            final(connection).backups@ == kept && match wanted {
                Some(value) => res is Some && res.unwrap()@ == value,
                None => res is None,
            }
        }),
        item_backup::same_but_backups(*final(connection), *old(connection)),
{
    match value {
        MetaValue::Raw(bytes) => Some(MetaValue::Raw(bytes.clone())),
        MetaValue::Item(bytes) => {
            let mut input: &[u8] = bytes.as_slice();
            match client_item::rewrite_item_value_with_connection(&mut input, native, to, hashes, connection) {
                Some(stack) => if input.len() == 0 {
                    Some(MetaValue::Item(stack))
                } else {
                    None
                },
                None => None,
            }
        },
        MetaValue::BlockState(state) => Some(MetaValue::BlockState(block_state(*state, to))),
        MetaValue::OptionalBlockState(state) => {
            let shown: i32 = if *state == 0 { 0 } else { block_state(*state, to) };
            Some(MetaValue::OptionalBlockState(shown))
        },
        MetaValue::Particle(particle) => {
            let mut out: Vec<u8> = Vec::new();
            if particle::write_particle_with_connection(&mut out, particle, hashes, native, to, connection) {
                proof {
                    let written = particle::particle_kept(
                        old(connection).backups@,
                        particle@,
                        hashes@,
                        native,
                        to,
                    ).1;
                    assert(out@ =~= written.unwrap());
                }
                Some(MetaValue::Raw(out))
            } else {
                None
            }
        },
        MetaValue::Particles(particles) => Some(
            MetaValue::Raw(rewrite_particles(particles, connection, hashes, native, to)),
        ),
        MetaValue::PaintingVariant(variant) => if *variant <= 0 {
            None
        } else {
            match item_component::next(to.ids.paintings.map_id(*variant - 1)) {
                Some(shown) => Some(MetaValue::PaintingVariant(shown)),
                None => None,
            }
        },
    }
}

// --- entries for the client ----------------------------------------------------------------------

/// Whether an entry is the time at which a wolf or a bee calms down.
pub open spec fn is_anger_time(entity_type: u16, index: u8, kinds: EntityKinds) -> bool {
    ||| entity_type == kinds.wolf && index == WOLF_ANGER_END_TIME_INDEX_26_3
    ||| entity_type == kinds.bee && index == BEE_ANGER_END_TIME_INDEX_26_3
}

/// What is left of a time, in ticks.
pub open spec fn ticks_left(until: i64, now: i64) -> i32 {
    if until - now < 0 {
        0
    } else if until - now > i32::MAX {
        i32::MAX
    } else {
        (until - now) as i32
    }
}

fn remaining_ticks(until: i64, now: i64) -> (res: i32)
    ensures
        res == ticks_left(until, now),
{
    let left: i128 = until as i128 - now as i128;
    if left < 0 {
        0
    } else if left > 0x7fff_ffff {
        0x7fff_ffff
    } else {
        left as i32
    }
}

/// The serializer and the value of an entry for the client. Up to 1.21.9 a time of
/// anger is what is left of it.
pub open spec fn entry_value_kept(
    rows: Seq<Row>,
    entity_type: u16,
    entry: DataEntry,
    game_time: i64,
    hashes: Seq<ComponentHash>,
    tables: &EntityTables,
    native: &Target,
    to: &Target,
) -> (Seq<Row>, Option<(i32, Value)>) {
    let types = tables.types.tables@;
    if to.version <= version::V_1_21_9 && is_anger_time(entity_type, entry.index, tables.kinds)
        && entity_data_types::kind_of(types, entry.serializer) == Some(MetaKind::VarLong) {
        (
            rows,
            match entry.value {
                Value::Raw(bytes) => match wire::take_var_long(bytes) {
                    Some((until, rest)) => if rest.len() == 0 {
                        match entity_data_types::id_for_name(types, wire::key("int"), to.version) {
                            Some(serializer) => Some(
                                (serializer, Value::Raw(wire::enc_var_int(ticks_left(until, game_time)))),
                            ),
                            None => None,
                        }
                    } else {
                        None
                    },
                    None => None,
                },
                _ => None,
            },
        )
    } else {
        match entity_data_types::id_for_version(types, entry.serializer, to.version) {
            Some(serializer) => {
                let (kept, value) = value_kept(rows, entry.value, hashes, native, to);
                (
                    kept,
                    match value {
                        Some(value) => Some((serializer, value)),
                        None => None,
                    },
                )
            },
            None => (rows, None),
        }
    }
}

/// The entries of a nautilus that its stand-in up to 1.21.9 does not have.
pub open spec fn is_removed(entity_type: u16, index: u8, kinds: EntityKinds, version: Version) -> bool {
    version <= version::V_1_21_9 && if entity_type == kinds.nautilus {
        17 <= index <= 20
    } else if entity_type == kinds.zombie_nautilus {
        17 <= index <= 21
    } else {
        false
    }
}

pub fn stand_in_metadata_removed(entity_type: u16, index: u8, kinds: &EntityKinds, version: Version) -> (res: bool)
    ensures
        res == is_removed(entity_type, index, *kinds, version),
{
    if version > version::V_1_21_9 {
        return false;
    }
    if entity_type == kinds.nautilus {
        17 <= index && index <= 20
    } else if entity_type == kinds.zombie_nautilus {
        17 <= index && index <= 21
    } else {
        false
    }
}

/// The colour of a cloud of effects, which up to 1.20.3 is an entry of its own and
/// since then part of a particle.
pub open spec fn cloud_colour(
    entity_type: u16,
    entry: DataEntry,
    tables: &EntityTables,
    native: &Target,
    to: &Target,
) -> Option<i32> {
    if entity_type == tables.kinds.area_effect_cloud && to.version <= version::V_1_20_3 && entry.index == 10 {
        match entry.value {
            Value::Particle(particle) => match particle.data {
                Options::Color(colour) => if particle::is_entity_effect(particle.id, native.cat) {
                    Some(colour)
                } else {
                    None
                },
                _ => None,
            },
            _ => None,
        }
    } else {
        None
    }
}

/// A colour without its alpha.
pub open spec fn opaque_colour(colour: i32) -> i32 {
    (wire::bits_of_i32(colour) % 0x100_0000) as i32
}

/// An entry for the client: nothing where the client does not have it. A cushion is
/// shown as a falling block, which has only the entries of every entity.
pub open spec fn entry_kept(
    rows: Seq<Row>,
    server_type: u16,
    client_type: u16,
    entry: DataEntry,
    game_time: i64,
    hashes: Seq<ComponentHash>,
    tables: &EntityTables,
    native: &Target,
    to: &Target,
) -> (Seq<Row>, Option<DataEntry>) {
    match cloud_colour(server_type, entry, tables, native, to) {
        Some(colour) => (
            rows,
            match entity_data_types::id_for_name(tables.types.tables@, wire::key("int"), to.version) {
                Some(serializer) => Some(
                    DataEntry {
                        index: 9,
                        serializer,
                        value: Value::Raw(wire::enc_var_int(opaque_colour(colour))),
                    },
                ),
                None => None,
            },
        ),
        None => if server_type == tables.kinds.cushion && client_type == tables.kinds.falling_block && entry.index > 7 {
            (rows, None)
        } else if is_removed(server_type, entry.index, tables.kinds, to.version) {
            (rows, None)
        } else {
            match shown_index(tables.indices@, client_type, entry.index) {
                Some(index) => {
                    let (kept, value) = entry_value_kept(
                        rows,
                        server_type,
                        entry,
                        game_time,
                        hashes,
                        tables,
                        native,
                        to,
                    );
                    (
                        kept,
                        match value {
                            Some((serializer, value)) => Some(DataEntry { index, serializer, value }),
                            None => None,
                        },
                    )
                },
                None => (rows, None),
            }
        },
    }
}

/// Where an entry goes among entries in order: behind those of the same index.
pub open spec fn place_from(entries: Seq<DataEntry>, index: u8, i: int) -> int
    decreases entries.len() - i,
{
    if i < 0 || i >= entries.len() || entries[i].index > index {
        i
    } else {
        place_from(entries, index, i + 1)
    }
}

pub open spec fn with_entry(entries: Seq<DataEntry>, entry: DataEntry) -> Seq<DataEntry> {
    entries.insert(place_from(entries, entry.index, 0), entry)
}

/// The entries from the i-th on for the client, in the order of their indices, among
/// those that are there.
pub open spec fn entries_kept(
    rows: Seq<Row>,
    done: Seq<DataEntry>,
    types: (u16, u16),
    entries: Seq<DataEntry>,
    i: int,
    game_time: i64,
    hashes: Seq<ComponentHash>,
    tables: &EntityTables,
    native: &Target,
    to: &Target,
) -> (Seq<Row>, Seq<DataEntry>)
    decreases entries.len() - i,
{
    if i < 0 || i >= entries.len() {
        (rows, done)
    } else {
        let (kept, shown) = entry_kept(rows, types.0, types.1, entries[i], game_time, hashes, tables, native, to);
        match shown {
            Some(entry) => entries_kept(
                kept,
                with_entry(done, entry),
                types,
                entries,
                i + 1,
                game_time,
                hashes,
                tables,
                native,
                to,
            ),
            None => entries_kept(kept, done, types, entries, i + 1, game_time, hashes, tables, native, to),
        }
    }
}

fn rewrite_entry_value(
    entity_type: u16,
    entry: &EntityDataEntry,
    connection: &mut UserConnection,
    game_time: i64,
    hashes: &Vec<ComponentHash>,
    tables: &EntityTables,
    native: &Target,
    to: &Target,
) -> (res: Option<(i32, MetaValue)>)
    ensures
        ({
            let (kept, wanted) = entry_value_kept(
                old(connection).backups@,
                entity_type,
                entry@,
                game_time,
                hashes@,
                tables,
                native,
                to,
            );
            final(connection).backups@ == kept && match wanted {
                Some((serializer, value)) => res is Some && res.unwrap().0 == serializer && res.unwrap().1@ == value,
                None => res is None,
            }
        }),
        item_backup::same_but_backups(*final(connection), *old(connection)),
{
    let angry: bool = (entity_type == tables.kinds.wolf && entry.index == WOLF_ANGER_END_TIME_INDEX_26_3) || (
    entity_type == tables.kinds.bee && entry.index == BEE_ANGER_END_TIME_INDEX_26_3);
    if to.version <= version::V_1_21_9 && angry {
        if let Some(MetaKind::VarLong) = tables.types.meta_kind(entry.serializer) {
            return match &entry.value {
                MetaValue::Raw(bytes) => {
                    let mut r: &[u8] = bytes.as_slice();
                    match wire::get_var_long(&mut r) {
                        Ok(until) => {
                            if r.len() != 0 {
                                return None;
                            }
                            match tables.types.meta_data_type_id_for_name("int".as_bytes(), to.version) {
                                Some(serializer) => Some(
                                    (
                                        serializer,
                                        MetaValue::Raw(wire::var_int_bytes(remaining_ticks(until, game_time))),
                                    ),
                                ),
                                None => None,
                            }
                        },
                        Err(_) => None,
                    }
                },
                _ => None,
            };
        }
    }
    let serializer: i32 = match tables.types.meta_data_type_id_for_version(entry.serializer, to.version) {
        Some(serializer) => serializer,
        None => {
            return None;
        },
    };
    match rewrite_value(&entry.value, connection, hashes, native, to) {
        Some(value) => Some((serializer, value)),
        None => None,
    }
}

fn find_cloud_colour(
    entity_type: u16,
    entry: &EntityDataEntry,
    tables: &EntityTables,
    native: &Target,
    to: &Target,
) -> (res: Option<i32>)
    ensures
        res == cloud_colour(entity_type, entry@, tables, native, to),
{
    if entity_type != tables.kinds.area_effect_cloud || to.version > version::V_1_20_3 || entry.index != 10 {
        return None;
    }
    match &entry.value {
        MetaValue::Particle(particle) => match &particle.data {
            ParticleData::Color(colour) => if particle::find_entity_effect(particle.id, native.cat) {
                Some(*colour)
            } else {
                None
            },
            _ => None,
        },
        _ => None,
    }
}

fn rewrite_entry(
    server_type: u16,
    client_type: u16,
    entry: &EntityDataEntry,
    connection: &mut UserConnection,
    game_time: i64,
    hashes: &Vec<ComponentHash>,
    tables: &EntityTables,
    native: &Target,
    to: &Target,
) -> (res: Option<EntityDataEntry>)
    ensures
        ({
            let (kept, wanted) = entry_kept(
                old(connection).backups@,
                server_type,
                client_type,
                entry@,
                game_time,
                hashes@,
                tables,
                native,
                to,
            );
            final(connection).backups@ == kept && match wanted {
                Some(shown) => res is Some && res.unwrap()@ == shown,
                None => res is None,
            }
        }),
        item_backup::same_but_backups(*final(connection), *old(connection)),
{
    if let Some(colour) = find_cloud_colour(server_type, entry, tables, native, to) {
        let opaque: i32 = (wire::i32_to_bits(colour) % 0x100_0000) as i32;
        return match tables.types.meta_data_type_id_for_name("int".as_bytes(), to.version) {
            Some(serializer) => Some(
                EntityDataEntry {
                    index: 9,
                    serializer,
                    value: MetaValue::Raw(wire::var_int_bytes(opaque)),
                },
            ),
            None => None,
        };
    }
    if server_type == tables.kinds.cushion && client_type == tables.kinds.falling_block && entry.index > 7 {
        return None;
    }
    if stand_in_metadata_removed(server_type, entry.index, &tables.kinds, to.version) {
        return None;
    }
    let index: u8 = match find_index(&tables.indices, client_type, entry.index) {
        Some(index) => index,
        None => {
            return None;
        },
    };
    match rewrite_entry_value(server_type, entry, connection, game_time, hashes, tables, native, to) {
        Some((serializer, value)) => Some(EntityDataEntry { index, serializer, value }),
        None => None,
    }
}

#[verifier::loop_isolation(false)]
fn insert_entry(entries: &mut Vec<EntityDataEntry>, entry: EntityDataEntry)
    ensures
        entry_views(final(entries)@) == with_entry(entry_views(old(entries)@), entry@),
{
    let ghost before = entry_views(entries@);
    let mut i: usize = 0;
    while i < entries.len() && entries[i].index <= entry.index
        invariant
            i <= entries.len(),
            place_from(before, entry.index, 0) == place_from(before, entry.index, i as int),
        decreases entries.len() - i,
    {
        i = i + 1;
    }
    let ghost added = entry@;
    entries.insert(i, entry);
    assert(entry_views(entries@) =~= before.insert(i as int, added));
}

/// Leaves out the entries that the client does not have, and renumbers the rest.
#[verifier::loop_isolation(false)]
pub fn rewrite_entries(
    server_type: u16,
    client_type: u16,
    entries: &Vec<EntityDataEntry>,
    connection: &mut UserConnection,
    game_time: i64,
    hashes: &Vec<ComponentHash>,
    tables: &EntityTables,
    native: &Target,
    to: &Target,
) -> (res: Vec<EntityDataEntry>)
    ensures
        ({
            let (kept, shown) = entries_kept(
                old(connection).backups@,
                seq![],
                (server_type, client_type),
                entry_views(entries@),
                0,
                game_time,
                hashes@,
                tables,
                native,
                to,
            );
            final(connection).backups@ == kept && entry_views(res@) == shown
        }),
        item_backup::same_but_backups(*final(connection), *old(connection)),
{
    let ghost all = entry_views(entries@);
    let ghost types = (server_type, client_type);
    let ghost wanted = entries_kept(
        connection.backups@,
        seq![],
        types,
        all,
        0,
        game_time,
        hashes@,
        tables,
        native,
        to,
    );
    let mut out: Vec<EntityDataEntry> = Vec::new();
    assert(entry_views(out@) =~= seq![]);
    let mut i: usize = 0;
    while i < entries.len()
        invariant
            i <= entries.len(),
            item_backup::same_but_backups(*connection, *old(connection)),
            wanted == entries_kept(
                connection.backups@,
                entry_views(out@),
                types,
                all,
                i as int,
                game_time,
                hashes@,
                tables,
                native,
                to,
            ),
        decreases entries.len() - i,
    {
        match rewrite_entry(
            server_type,
            client_type,
            &entries[i],
            connection,
            game_time,
            hashes,
            tables,
            native,
            to,
        ) {
            Some(entry) => insert_entry(&mut out, entry),
            None => {},
        }
        i = i + 1;
    }
    out
}

// --- writing ----------------------------------------------------------------------------------------

/// The bytes of a value for the client. Particles have become bytes by then.
pub open spec fn enc_value(value: Value) -> Option<Seq<u8>> {
    match value {
        Value::Raw(bytes) => Some(bytes),
        Value::Item(bytes) => Some(bytes),
        Value::BlockState(n) => Some(wire::enc_var_int(n)),
        Value::OptionalBlockState(n) => Some(wire::enc_var_int(n)),
        Value::PaintingVariant(n) => Some(wire::enc_var_int(n)),
        Value::Particle(particle) => None,
        Value::Particles(particles) => None,
    }
}

/// Whether a value can be written.
pub open spec fn is_written(entry: DataEntry) -> bool {
    enc_value(entry.value) is Some
}

pub open spec fn enc_entry(entry: DataEntry) -> Seq<u8> {
    seq![entry.index] + wire::enc_var_int(entry.serializer) + enc_value(entry.value).unwrap()
}

pub open spec fn enc_each(entries: Seq<DataEntry>) -> Seq<u8>
    decreases entries.len(),
{
    if entries.len() == 0 {
        seq![]
    } else {
        enc_each(entries.drop_last()) + enc_entry(entries.last())
    }
}

/// A list of entries with its end.
pub open spec fn enc_entries(entries: Seq<DataEntry>) -> Seq<u8> {
    enc_each(entries) + seq![TERMINATOR]
}

fn write_entry(out: &mut Vec<u8>, entry: &EntityDataEntry) -> (res: bool)
    ensures
        res == is_written(entry@),
        res ==> final(out)@ == old(out)@ + enc_entry(entry@),
{
    let ghost before = out@;
    out.push(entry.index);
    wire::write_var_int(out, entry.serializer);
    match &entry.value {
        MetaValue::Raw(bytes) => wire::write_bytes(out, bytes.as_slice()),
        MetaValue::Item(bytes) => wire::write_bytes(out, bytes.as_slice()),
        MetaValue::BlockState(n) => wire::write_var_int(out, *n),
        MetaValue::OptionalBlockState(n) => wire::write_var_int(out, *n),
        MetaValue::PaintingVariant(n) => wire::write_var_int(out, *n),
        _ => {
            return false;
        },
    }
    assert(out@ =~= before + enc_entry(entry@));
    true
}

/// Writes a list of entries; `false` where a value is a particle.
#[verifier::loop_isolation(false)]
pub fn write_entries(out: &mut Vec<u8>, entries: &Vec<EntityDataEntry>) -> (res: bool)
    ensures
        res == (forall|i: int| 0 <= i < entries.len() ==> is_written(#[trigger] entry_views(entries@)[i])),
        res ==> final(out)@ == old(out)@ + enc_entries(entry_views(entries@)),
{
    let ghost before = out@;
    let ghost all = entry_views(entries@);
    let mut i: usize = 0;
    proof {
        assert(all.take(0) =~= seq![]);
        assert(out@ =~= before + enc_each(all.take(0)));
    }
    while i < entries.len()
        invariant
            i <= entries.len(),
            out@ == before + enc_each(all.take(i as int)),
            forall|k: int| 0 <= k < i ==> is_written(#[trigger] all[k]),
        decreases entries.len() - i,
    {
        if !write_entry(out, &entries[i]) {
            assert(!is_written(all[i as int]));
            return false;
        }
        proof {
            let next = all.take(i + 1);
            assert(next.drop_last() =~= all.take(i as int));
            assert(out@ =~= before + enc_each(next));
        }
        i = i + 1;
    }
    out.push(TERMINATOR);
    proof {
        assert(all.take(i as int) =~= all);
        assert(out@ =~= before + enc_entries(all));
    }
    true
}

// --- packets --------------------------------------------------------------------------------------------

/// The kind of the entity that a spawn packet tells of, once it is known.
pub fn spawned_type(payload: &[u8], connection: &UserConnection) -> (res: Option<u16>)
    ensures
        res == match wire::take_var_int(payload@) {
            Some((id, rest)) => connection::server_type(connection.entity_tracker@, id),
            None => None,
        },
{
    let mut r: &[u8] = payload;
    match wire::get_var_int(&mut r) {
        Ok(id) => connection.entity_tracker.entity_type(id),
        Err(_) => None,
    }
}

/// The kinds of an entity on either side; one that is shown as itself has one kind.
pub open spec fn types_of(c: UserConnection, id: i32) -> Option<(u16, u16)> {
    match connection::server_type(c.entity_tracker@, id) {
        Some(server) => Some(
            (
                server,
                match connection::client_type(c.entity_tracker@, id) {
                    Some(client) => client,
                    None => server,
                },
            ),
        ),
        None => None,
    }
}

pub open spec fn time_of(c: UserConnection) -> i64 {
    match c.game_time {
        Some(time) => time,
        None => 0,
    }
}

/// A packet of metadata for the client, with the connection's backups and what
/// stands behind the packet. The entries of an entity of unknown kind are all left
/// out, since an entry in the wrong place is fatal to the client.
pub open spec fn data_kept(
    c: UserConnection,
    s: Seq<u8>,
    hashes: Seq<ComponentHash>,
    tables: &EntityTables,
    native: &Target,
    to: &Target,
) -> (Seq<Row>, Option<(Seq<u8>, Seq<u8>)>) {
    let rows = c.backups@;
    if to.version >= version::V_26_3 {
        (rows, Some((s, seq![])))
    } else {
        match wire::take_var_int(s) {
            Some((id, t)) => match take_entries(seq![], t, tables.types.tables@, native) {
                Some((entries, rest)) => match types_of(c, id) {
                    Some(types) => {
                        let (kept, shown) = entries_kept(
                            rows,
                            seq![],
                            types,
                            entries,
                            0,
                            time_of(c),
                            hashes,
                            tables,
                            native,
                            to,
                        );
                        (kept, Some((wire::enc_var_int(id) + enc_entries(shown), rest)))
                    },
                    None => (rows, Some((wire::enc_var_int(id) + enc_entries(seq![]), rest))),
                },
                None => (rows, None),
            },
            None => (rows, None),
        }
    }
}

/// Translates a packet of metadata: the server's entries are read once, and the
/// indices, serializers and values are rewritten for the client.
pub fn set_entity_data(
    connection: &mut UserConnection,
    r: &mut &[u8],
    hashes: &Vec<ComponentHash>,
    tables: &EntityTables,
    native: &Target,
    to: &Target,
) -> (res: Result<Vec<u8>, ReadingError>)
    ensures
        ({
            let (kept, wanted) = data_kept(*old(connection), old(r)@, hashes@, tables, native, to);
            final(connection).backups@ == kept && match wanted {
                Some((bytes, rest)) => res is Ok && res->Ok_0@ == bytes && final(r)@ == rest,
                None => res is Err,
            }
        }),
        item_backup::same_but_backups(*final(connection), *old(connection)),
{
    if to.version >= version::V_26_3 {
        let length: usize = r.len();
        let all: Vec<u8> = slice_to_vec(*r);
        *r = slice_subrange(*r, length, length);
        assert(r@ =~= seq![]);
        return Ok(all);
    }
    let id: i32 = wire::get_var_int(r)?;
    let entries: Vec<EntityDataEntry> = read_entries(r, &tables.types, native)?;
    let mut out: Vec<u8> = wire::var_int_bytes(id);
    let server: u16 = match connection.entity_tracker.entity_type(id) {
        Some(server) => server,
        None => {
            out.push(TERMINATOR);
            assert(out@ =~= wire::enc_var_int(id) + enc_entries(seq![]));
            return Ok(out);
        },
    };
    let client: u16 = match connection.entity_tracker.client_entity_type(id) {
        Some(client) => client,
        None => server,
    };
    let game_time: i64 = match connection.game_time {
        Some(time) => time,
        None => 0,
    };
    proof {
        lemma_entries_are_written(
            connection.backups@,
            seq![],
            (server, client),
            entry_views(entries@),
            0,
            game_time,
            hashes@,
            tables,
            native,
            to,
        );
    }
    let shown: Vec<EntityDataEntry> = rewrite_entries(
        server,
        client,
        &entries,
        connection,
        game_time,
        hashes,
        tables,
        native,
        to,
    );
    if !write_entries(&mut out, &shown) {
        return Err(ReadingError::Malformed);
    }
    Ok(out)
}

/// Whether all entries can be written.
pub open spec fn all_written(entries: Seq<DataEntry>) -> bool {
    forall|i: int| 0 <= i < entries.len() ==> is_written(#[trigger] entries[i])
}

proof fn lemma_value_is_written(
    rows: Seq<Row>,
    value: Value,
    hashes: Seq<ComponentHash>,
    native: &Target,
    to: &Target,
)
    ensures
        value_kept(rows, value, hashes, native, to).1 matches Some(shown) ==> enc_value(shown) is Some,
{
}

proof fn lemma_entry_is_written(
    rows: Seq<Row>,
    types: (u16, u16),
    entry: DataEntry,
    game_time: i64,
    hashes: Seq<ComponentHash>,
    tables: &EntityTables,
    native: &Target,
    to: &Target,
)
    ensures
        entry_kept(rows, types.0, types.1, entry, game_time, hashes, tables, native, to).1 matches Some(shown)
            ==> is_written(shown),
{
    lemma_value_is_written(rows, entry.value, hashes, native, to);
}

proof fn lemma_with_entry_is_written(entries: Seq<DataEntry>, entry: DataEntry)
    requires
        all_written(entries),
        is_written(entry),
    ensures
        all_written(with_entry(entries, entry)),
{
    lemma_place(entries, entry.index, 0);
    let next = with_entry(entries, entry);
    let at = place_from(entries, entry.index, 0);
    assert forall|k: int| 0 <= k < next.len() implies is_written(#[trigger] next[k]) by {
        if k < at {
            assert(next[k] == entries[k]);
        } else if k > at {
            assert(next[k] == entries[k - 1]);
        }
    }
}

/// Entries for the client can be written.
proof fn lemma_entries_are_written(
    rows: Seq<Row>,
    done: Seq<DataEntry>,
    types: (u16, u16),
    entries: Seq<DataEntry>,
    i: int,
    game_time: i64,
    hashes: Seq<ComponentHash>,
    tables: &EntityTables,
    native: &Target,
    to: &Target,
)
    requires
        0 <= i,
        all_written(done),
    ensures
        all_written(entries_kept(rows, done, types, entries, i, game_time, hashes, tables, native, to).1),
    decreases entries.len() - i,
{
    if i < entries.len() {
        let (kept, shown) = entry_kept(rows, types.0, types.1, entries[i], game_time, hashes, tables, native, to);
        lemma_entry_is_written(rows, types, entries[i], game_time, hashes, tables, native, to);
        let next = match shown {
            Some(entry) => with_entry(done, entry),
            None => done,
        };
        if let Some(entry) = shown {
            lemma_with_entry_is_written(done, entry);
        }
        lemma_entries_are_written(kept, next, types, entries, i + 1, game_time, hashes, tables, native, to);
    }
}

proof fn lemma_place(entries: Seq<DataEntry>, index: u8, i: int)
    requires
        0 <= i <= entries.len(),
    ensures
        i <= place_from(entries, index, i) <= entries.len(),
        forall|k: int| i <= k < place_from(entries, index, i) ==> (#[trigger] entries[k]).index <= index,
        place_from(entries, index, i) < entries.len() ==> entries[place_from(entries, index, i)].index > index,
    decreases entries.len() - i,
{
    if i < entries.len() && entries[i].index <= index {
        lemma_place(entries, index, i + 1);
    }
}

// --- attributes ---------------------------------------------------------------------------------------

/// An attribute: its id, the bytes that name it, and its value with its modifiers.
#[verifier::ext_equal]
pub struct AttributeView {
    pub id: Option<u32>,
    pub head: Seq<u8>,
    pub tail: Seq<u8>,
}

/// The value and the modifiers of an attribute; a modifier has a name from 1.21 on
/// and a UUID before.
pub open spec fn attribute_tail(version: Version) -> Shape {
    shape::pair(
        Shape::Fixed(8),
        shape::repeat(
            shape::pair(
                if version >= version::V_1_21 {
                    Shape::Str
                } else {
                    Shape::Fixed(16)
                },
                Shape::Fixed(9),
            ),
        ),
    )
}

fn new_attribute_tail(version: Version) -> (res: Shape)
    ensures
        res == attribute_tail(version),
{
    let id: Shape = if version >= version::V_1_21 {
        Shape::Str
    } else {
        Shape::Fixed(16)
    };
    shape::pair(Shape::Fixed(8), shape::repeat(shape::pair(id, Shape::Fixed(9))))
}

/// What names an attribute: a number from 1.20.5 on, a name before.
pub open spec fn take_attribute_id(s: Seq<u8>, names: Seq<Vec<u8>>, version: Version) -> Option<
    (Option<u32>, Seq<u8>),
> {
    if version >= version::V_1_20_5 {
        match wire::take_var_int(s) {
            Some((id, rest)) => Some(
                (
                    if id < 0 {
                        None
                    } else {
                        Some(id as u32)
                    },
                    rest,
                ),
            ),
            None => None,
        }
    } else {
        match wire::take_str(s) {
            Some((name, rest)) => Some(
                (
                    match catalog::index_of(names, text::bare(name)) {
                        Some(id) => if id < 0 {
                            None
                        } else {
                            Some(id as u32)
                        },
                        None => None,
                    },
                    rest,
                ),
            ),
            None => None,
        }
    }
}

pub open spec fn take_attribute(s: Seq<u8>, names: Seq<Vec<u8>>, to: &Target) -> Option<(AttributeView, Seq<u8>)> {
    match take_attribute_id(s, names, to.version) {
        Some((id, t)) => if t.len() > s.len() {
            None
        } else {
            match shape::take_shape(attribute_tail(to.version), t, to.cat, to.version) {
                Some((tail, rest)) => Some((AttributeView { id, head: s.take(s.len() - t.len()), tail }, rest)),
                None => None,
            }
        },
        None => None,
    }
}

/// An attribute for the client: nothing where it has no such attribute; from 1.20.5
/// on the number has to fit its field.
pub open spec fn attribute_shown(attribute: AttributeView, to: &Target) -> Option<Option<Seq<u8>>> {
    match attribute.id {
        Some(id) => match mapping::target_of(to.ids.attributes@, id) {
            Some(shown) => if to.version >= version::V_1_20_5 {
                if shown <= i32::MAX {
                    Some(Some(wire::enc_var_int(shown as i32) + attribute.tail))
                } else {
                    None
                }
            } else {
                Some(Some(attribute.head + attribute.tail))
            },
            None => Some(None),
        },
        None => Some(None),
    }
}

/// `n` attributes for the client, with how many it has, behind those that were
/// written.
pub open spec fn attributes_shown(
    count: nat,
    done: Seq<u8>,
    n: nat,
    s: Seq<u8>,
    names: Seq<Vec<u8>>,
    to: &Target,
) -> Option<(nat, Seq<u8>, Seq<u8>)>
    decreases n,
{
    if n == 0 {
        Some((count, done, s))
    } else {
        match take_attribute(s, names, to) {
            Some((attribute, rest)) => match attribute_shown(attribute, to) {
                Some(Some(bytes)) => attributes_shown(count + 1, done + bytes, (n - 1) as nat, rest, names, to),
                Some(None) => attributes_shown(count, done, (n - 1) as nat, rest, names, to),
                None => None,
            },
            None => None,
        }
    }
}

pub open spec fn take_attribute_count(s: Seq<u8>, version: Version) -> Option<(i32, Seq<u8>)> {
    if version >= version::V_1_17 {
        wire::take_var_int(s)
    } else {
        wire::take_i32(s)
    }
}

pub open spec fn enc_attribute_count(n: nat, version: Version) -> Seq<u8> {
    if version >= version::V_1_17 {
        wire::enc_len(n)
    } else {
        wire::enc_i32(n as i32)
    }
}

/// A packet of attributes for the client: nothing where bytes are left over.
pub open spec fn attributes_written(s: Seq<u8>, names: Seq<Vec<u8>>, to: &Target) -> Option<Seq<u8>> {
    if to.version >= version::V_26_3 {
        Some(s)
    } else {
        match wire::take_var_int(s) {
            Some((id, t)) => match take_attribute_count(t, to.version) {
                Some((n, u)) => match attributes_shown(0, seq![], shape::times(n), u, names, to) {
                    Some((count, bytes, rest)) => if rest.len() == 0 {
                        Some(wire::enc_var_int(id) + enc_attribute_count(count, to.version) + bytes)
                    } else {
                        None
                    },
                    None => None,
                },
                None => None,
            },
            None => None,
        }
    }
}

/// How many bytes stand behind the attributes of a packet that has them all.
pub open spec fn attributes_left(s: Seq<u8>, names: Seq<Vec<u8>>, to: &Target) -> Option<nat> {
    match wire::take_var_int(s) {
        Some((id, t)) => match take_attribute_count(t, to.version) {
            Some((n, u)) => match attributes_shown(0, seq![], shape::times(n), u, names, to) {
                Some((count, bytes, rest)) => Some(rest.len()),
                None => None,
            },
            None => None,
        },
        None => None,
    }
}

struct Attribute<'a> {
    id: Option<u32>,
    head: &'a [u8],
    tail: &'a [u8],
}

impl<'a> View for Attribute<'a> {
    type V = AttributeView;

    closed spec fn view(&self) -> AttributeView {
        AttributeView { id: self.id, head: self.head@, tail: self.tail@ }
    }
}

fn read_attribute<'a>(r: &mut &'a [u8], names: &Vec<Vec<u8>>, to: &Target) -> (res: Result<
    Attribute<'a>,
    ReadingError,
>)
    ensures
        match take_attribute(old(r)@, names@, to) {
            Some((attribute, rest)) => res is Ok && res->Ok_0@ == attribute && final(r)@ == rest,
            None => res is Err,
        },
{
    let source: &'a [u8] = *r;
    let id: Option<u32> = if to.version >= version::V_1_20_5 {
        let id: i32 = wire::get_var_int(r)?;
        if id < 0 {
            None
        } else {
            Some(id as u32)
        }
    } else {
        let name: &[u8] = wire::get_str(r)?;
        match catalog::find_name(names, text::bare_name(name)) {
            Some(id) => if id < 0 {
                None
            } else {
                Some(id as u32)
            },
            None => None,
        }
    };
    if r.len() > source.len() {
        return Err(ReadingError::Malformed);
    }
    let head: &'a [u8] = slice_subrange(source, 0, source.len() - r.len());
    assert(head@ =~= source@.take(source@.len() - r@.len()));
    let tail: &'a [u8] = shape::get_shape(&new_attribute_tail(to.version), r, to.cat, to.version)?;
    Ok(Attribute { id, head, tail })
}

/// Translates attributes one by one; how many the client has, and their bytes.
#[verifier::loop_isolation(false)]
fn rewrite_attributes(n: i32, r: &mut &[u8], names: &Vec<Vec<u8>>, to: &Target) -> (res: Result<
    (i32, Vec<u8>),
    ReadingError,
>)
    ensures
        match attributes_shown(0, seq![], shape::times(n), old(r)@, names@, to) {
            Some((count, bytes, rest)) => res is Ok && res->Ok_0.0 == count && res->Ok_0.1@ == bytes && final(r)@
                == rest,
            None => res is Err,
        },
{
    let ghost wanted = attributes_shown(0, seq![], shape::times(n), r@, names@, to);
    let mut out: Vec<u8> = Vec::new();
    let mut count: i32 = 0;
    let mut left: i32 = n;
    while left > 0
        invariant
            0 <= count,
            count + shape::times(left) <= 0x7fff_ffff,
            wanted == attributes_shown(count as nat, out@, shape::times(left), r@, names@, to),
        decreases left,
    {
        let attribute: Attribute<'_> = read_attribute(r, names, to)?;
        let shown: Option<u32> = match attribute.id {
            Some(id) => to.ids.attributes.map(id),
            None => None,
        };
        if let Some(shown) = shown {
            let ghost before = out@;
            if to.version >= version::V_1_20_5 {
                if shown > 0x7fff_ffff {
                    return Err(ReadingError::Malformed);
                }
                wire::write_var_int(&mut out, shown as i32);
            } else {
                wire::write_bytes(&mut out, attribute.head);
            }
            wire::write_bytes(&mut out, attribute.tail);
            proof {
                let bytes = attribute_shown(attribute@, to).unwrap().unwrap();
                assert(out@ =~= before + bytes);
            }
            count = count + 1;
        }
        left = left - 1;
    }
    Ok((count, out))
}

fn get_attribute_count(r: &mut &[u8], version: Version) -> (res: Result<i32, ReadingError>)
    ensures
        match take_attribute_count(old(r)@, version) {
            Some((n, rest)) => res == Ok::<i32, ReadingError>(n) && final(r)@ == rest,
            None => res is Err,
        },
{
    if version >= version::V_1_17 {
        wire::get_var_int(r)
    } else {
        wire::get_i32(r)
    }
}

/// Translates a packet of attributes: those that the client lacks are left out.
pub fn update_attributes(payload: &[u8], names: &Vec<Vec<u8>>, to: &Target) -> (res: Result<Vec<u8>, TranslateError>)
    ensures
        match attributes_written(payload@, names@, to) {
            Some(bytes) => res is Ok && res->Ok_0@ == bytes,
            None => res is Err && res->Err_0 == wire::packet_error(attributes_left(payload@, names@, to)),
        },
{
    if to.version >= version::V_26_3 {
        return Ok(slice_to_vec(payload));
    }
    let mut r: &[u8] = payload;
    let id: i32 = wire::or_malformed(wire::get_var_int(&mut r))?;
    let n: i32 = wire::or_malformed(get_attribute_count(&mut r, to.version))?;
    let (count, attributes): (i32, Vec<u8>) = wire::or_malformed(rewrite_attributes(n, &mut r, names, to))?;
    if r.len() != 0 {
        return Err(TranslateError::TrailingBytes(r.len()));
    }
    let mut out: Vec<u8> = wire::var_int_bytes(id);
    if to.version >= version::V_1_17 {
        wire::write_len(&mut out, count as usize);
    } else {
        wire::write_i32(&mut out, count);
    }
    wire::write_bytes(&mut out, attributes.as_slice());
    assert(out@ =~= wire::enc_var_int(id) + enc_attribute_count(count as nat, to.version) + attributes@);
    Ok(out)
}

// --- laws ------------------------------------------------------------------------------------------------

/// Whether entries are in the order of their indices.
pub open spec fn in_order(entries: Seq<DataEntry>) -> bool {
    forall|i: int, j: int| 0 <= i <= j < entries.len() ==> (#[trigger] entries[i]).index <= (#[trigger] entries[j]).index
}

proof fn lemma_with_entry_in_order(entries: Seq<DataEntry>, entry: DataEntry)
    requires
        in_order(entries),
    ensures
        in_order(with_entry(entries, entry)),
{
    lemma_place(entries, entry.index, 0);
    let at = place_from(entries, entry.index, 0);
    let next = with_entry(entries, entry);
    assert forall|i: int, j: int| 0 <= i <= j < next.len() implies (#[trigger] next[i]).index <= (
    #[trigger] next[j]).index by {
        let a = if i < at {
            i
        } else {
            i - 1
        };
        let b = if j < at {
            j
        } else {
            j - 1
        };
        if i != at && j != at {
            assert(entries[a].index <= entries[b].index);
        } else if i == at && j > at {
            assert(entries[at].index <= entries[b].index);
        } else if j == at && i < at {
            assert(entries[a].index <= entry.index);
        }
    }
}

proof fn lemma_entries_in_order(
    rows: Seq<Row>,
    done: Seq<DataEntry>,
    types: (u16, u16),
    entries: Seq<DataEntry>,
    i: int,
    game_time: i64,
    hashes: Seq<ComponentHash>,
    tables: &EntityTables,
    native: &Target,
    to: &Target,
)
    requires
        0 <= i,
        in_order(done),
    ensures
        in_order(entries_kept(rows, done, types, entries, i, game_time, hashes, tables, native, to).1),
    decreases entries.len() - i,
{
    if i < entries.len() {
        let (kept, shown) = entry_kept(rows, types.0, types.1, entries[i], game_time, hashes, tables, native, to);
        match shown {
            Some(entry) => {
                lemma_with_entry_in_order(done, entry);
                lemma_entries_in_order(
                    kept,
                    with_entry(done, entry),
                    types,
                    entries,
                    i + 1,
                    game_time,
                    hashes,
                    tables,
                    native,
                    to,
                );
            },
            None => {
                lemma_entries_in_order(kept, done, types, entries, i + 1, game_time, hashes, tables, native, to);
            },
        }
    }
}

/// A client gets its entries in the order of their indices, whatever order the
/// server's are in.
pub proof fn entries_come_in_order(
    rows: Seq<Row>,
    types: (u16, u16),
    entries: Seq<DataEntry>,
    game_time: i64,
    hashes: Seq<ComponentHash>,
    tables: &EntityTables,
    native: &Target,
    to: &Target,
)
    ensures
        in_order(entries_kept(rows, seq![], types, entries, 0, game_time, hashes, tables, native, to).1),
{
    lemma_entries_in_order(rows, seq![], types, entries, 0, game_time, hashes, tables, native, to);
}

/// An entity of unknown kind gets no entries at all.
pub proof fn untracked_entities_get_no_entries(
    c: UserConnection,
    id: i32,
    s: Seq<u8>,
    hashes: Seq<ComponentHash>,
    tables: &EntityTables,
    native: &Target,
    to: &Target,
)
    requires
        to.version < version::V_26_3,
        connection::server_type(c.entity_tracker@, id) is None,
        take_entries(seq![], s, tables.types.tables@, native) is Some,
    ensures
        data_kept(c, wire::enc_var_int(id) + s, hashes, tables, native, to) matches (kept, Some((bytes, rest))) && kept
            == c.backups@ && bytes == wire::enc_var_int(id) + seq![TERMINATOR],
{
    wire::var_int_round_trip(id, s);
    assert(enc_entries(seq![]) =~= seq![TERMINATOR]);
}

/// A time of anger that has passed is shown as none left, never as less.
pub proof fn anger_is_never_negative(until: i64, now: i64)
    ensures
        0 <= ticks_left(until, now),
        until <= now ==> ticks_left(until, now) == 0,
        0 <= until - now <= i32::MAX ==> ticks_left(until, now) == until - now,
{
}

} // verus!
