//! Particles: their numbers, and the data that some of them carry.
//!
//! Floats stand as their bit patterns.
use vstd::prelude::*;
use vstd::slice::slice_to_vec;
use crate::catalog;
use crate::catalog::Catalog;
use crate::client_item;
use crate::connection::UserConnection;
use crate::item_backup;
use crate::item_backup::ComponentHash;
use crate::item_backup::Row;
use crate::mapping;
use crate::mapping::ComposedMappings;
use crate::number;
use crate::position;
use crate::shape;
use crate::shape::Shape;
use crate::sound;
use crate::sound::Shown;
use crate::target::Target;
use crate::text;
use crate::version;
use crate::version::Version;
use crate::wire;
use crate::wire::ReadingError;
use crate::wire::TranslateError;

verus! {

// --- values ----------------------------------------------------------------------------------------

/// Where a vibration goes: a block by its packed position, or an entity and how
/// far above its feet.
#[derive(Clone, Copy, PartialEq, Eq, Structural, Debug)]
pub enum VibrationSource {
    Block(i64),
    Entity { id: i32, y_offset: u32 },
}

pub enum ParticleData {
    Nothing,
    Block(u32),
    Dust { rgb: i32, scale: u32 },
    Transition { from: i32, to: i32, scale: u32 },
    /// The origin is carried by 1.17 and 1.18 alone.
    Vibration { origin: Option<i64>, source: VibrationSource, ticks: i32 },
    Float(u32),
    Delay(i32),
    Color(i32),
    Trail { x: u64, y: u64, z: u64, color: i32, duration: i32 },
    Spell { color: i32, power: u32 },
    Geyser { water_blocks: i32, impulse: u32 },
    /// A stack in the server's form.
    Item(Vec<u8>),
}

/// A particle as the server numbers it.
pub struct Particle {
    pub id: i32,
    pub data: ParticleData,
}

/// The mathematical form of a particle's data.
#[verifier::ext_equal]
pub enum Options {
    Nothing,
    Block(u32),
    Dust { rgb: i32, scale: u32 },
    Transition { from: i32, to: i32, scale: u32 },
    Vibration { origin: Option<i64>, source: VibrationSource, ticks: i32 },
    Float(u32),
    Delay(i32),
    Color(i32),
    Trail { x: u64, y: u64, z: u64, color: i32, duration: i32 },
    Spell { color: i32, power: u32 },
    Geyser { water_blocks: i32, impulse: u32 },
    Item(Seq<u8>),
}

impl View for ParticleData {
    type V = Options;

    open spec fn view(&self) -> Options {
        match *self {
            ParticleData::Nothing => Options::Nothing,
            ParticleData::Block(state) => Options::Block(state),
            ParticleData::Dust { rgb, scale } => Options::Dust { rgb, scale },
            ParticleData::Transition { from, to, scale } => Options::Transition { from, to, scale },
            ParticleData::Vibration { origin, source, ticks } => Options::Vibration { origin, source, ticks },
            ParticleData::Float(value) => Options::Float(value),
            ParticleData::Delay(value) => Options::Delay(value),
            ParticleData::Color(value) => Options::Color(value),
            ParticleData::Trail { x, y, z, color, duration } => Options::Trail { x, y, z, color, duration },
            ParticleData::Spell { color, power } => Options::Spell { color, power },
            ParticleData::Geyser { water_blocks, impulse } => Options::Geyser { water_blocks, impulse },
            ParticleData::Item(stack) => Options::Item(stack@),
        }
    }
}

// --- layouts -----------------------------------------------------------------------------------------

/// The layout of the data that a particle carries in a release.
#[derive(Clone, Copy, PartialEq, Eq, Structural, Debug)]
pub enum Layout {
    Nothing,
    Block,
    Item,
    /// A packed colour and a scale.
    DustRgb,
    /// Three colour floats and a scale.
    DustFloats,
    /// Two packed colours and a scale.
    TransitionRgb,
    /// Both colours as floats, the scale last.
    TransitionScaleLast,
    /// Both colours as floats, the scale between them.
    TransitionScaleMid,
    /// An origin, a named source and the time.
    VibrationWithSource,
    /// A named source and the time.
    VibrationNamed,
    /// A numbered source and the time.
    VibrationTyped,
    Float,
    Delay,
    Color,
    Trail,
    TrailWithDuration,
    Spell,
    Geyser,
    GeyserBase,
}

/// The particles that carry data in some release.
#[derive(Clone, Copy, PartialEq, Eq, Structural, Debug)]
pub enum Kind {
    Item,
    Block,
    BlockMarker,
    DustPillar,
    FallingDust,
    BlockCrumble,
    Dust,
    DustColorTransition,
    Vibration,
    SculkCharge,
    Shriek,
    EntityEffect,
    Trail,
    TintedLeaves,
    DragonBreath,
    Effect,
    InstantEffect,
    Flash,
    Geyser,
    GeyserBase,
    GeyserPoof,
    GeyserPlume,
}

pub open spec fn kind_name(kind: Kind) -> Seq<u8> {
    match kind {
        Kind::Item => wire::key("item"),
        Kind::Block => wire::key("block"),
        Kind::BlockMarker => wire::key("block_marker"),
        Kind::DustPillar => wire::key("dust_pillar"),
        Kind::FallingDust => wire::key("falling_dust"),
        Kind::BlockCrumble => wire::key("block_crumble"),
        Kind::Dust => wire::key("dust"),
        Kind::DustColorTransition => wire::key("dust_color_transition"),
        Kind::Vibration => wire::key("vibration"),
        Kind::SculkCharge => wire::key("sculk_charge"),
        Kind::Shriek => wire::key("shriek"),
        Kind::EntityEffect => wire::key("entity_effect"),
        Kind::Trail => wire::key("trail"),
        Kind::TintedLeaves => wire::key("tinted_leaves"),
        Kind::DragonBreath => wire::key("dragon_breath"),
        Kind::Effect => wire::key("effect"),
        Kind::InstantEffect => wire::key("instant_effect"),
        Kind::Flash => wire::key("flash"),
        Kind::Geyser => wire::key("geyser"),
        Kind::GeyserBase => wire::key("geyser_base"),
        Kind::GeyserPoof => wire::key("geyser_poof"),
        Kind::GeyserPlume => wire::key("geyser_plume"),
    }
}

fn name_of(kind: Kind) -> (res: &'static str)
    ensures
        wire::key(res) == kind_name(kind),
{
    match kind {
        Kind::Item => "item",
        Kind::Block => "block",
        Kind::BlockMarker => "block_marker",
        Kind::DustPillar => "dust_pillar",
        Kind::FallingDust => "falling_dust",
        Kind::BlockCrumble => "block_crumble",
        Kind::Dust => "dust",
        Kind::DustColorTransition => "dust_color_transition",
        Kind::Vibration => "vibration",
        Kind::SculkCharge => "sculk_charge",
        Kind::Shriek => "shriek",
        Kind::EntityEffect => "entity_effect",
        Kind::Trail => "trail",
        Kind::TintedLeaves => "tinted_leaves",
        Kind::DragonBreath => "dragon_breath",
        Kind::Effect => "effect",
        Kind::InstantEffect => "instant_effect",
        Kind::Flash => "flash",
        Kind::Geyser => "geyser",
        Kind::GeyserBase => "geyser_base",
        Kind::GeyserPoof => "geyser_poof",
        Kind::GeyserPlume => "geyser_plume",
    }
}

/// What a particle carries in a release.
pub open spec fn layout_for(kind: Kind, version: Version) -> Layout {
    match kind {
        Kind::Item => Layout::Item,
        Kind::Block | Kind::FallingDust => Layout::Block,
        Kind::BlockMarker => if version >= version::V_1_18 {
            Layout::Block
        } else {
            Layout::Nothing
        },
        Kind::DustPillar => if version >= version::V_1_20_5 {
            Layout::Block
        } else {
            Layout::Nothing
        },
        Kind::BlockCrumble => if version >= version::V_1_21_2 {
            Layout::Block
        } else {
            Layout::Nothing
        },
        Kind::Dust => if version >= version::V_1_21_2 {
            Layout::DustRgb
        } else {
            Layout::DustFloats
        },
        Kind::DustColorTransition => if version >= version::V_1_21_2 {
            Layout::TransitionRgb
        } else if version >= version::V_1_20_5 {
            Layout::TransitionScaleLast
        } else if version >= version::V_1_17 {
            Layout::TransitionScaleMid
        } else {
            Layout::Nothing
        },
        Kind::Vibration => if version >= version::V_1_20_3 {
            Layout::VibrationTyped
        } else if version >= version::V_1_19 {
            Layout::VibrationNamed
        } else if version >= version::V_1_17 {
            Layout::VibrationWithSource
        } else {
            Layout::Nothing
        },
        Kind::SculkCharge => if version >= version::V_1_19 {
            Layout::Float
        } else {
            Layout::Nothing
        },
        Kind::Shriek => if version >= version::V_1_19 {
            Layout::Delay
        } else {
            Layout::Nothing
        },
        Kind::EntityEffect => if version >= version::V_1_20_5 {
            Layout::Color
        } else {
            Layout::Nothing
        },
        Kind::Trail => if version >= version::V_1_21_4 {
            Layout::TrailWithDuration
        } else if version >= version::V_1_21_2 {
            Layout::Trail
        } else {
            Layout::Nothing
        },
        Kind::TintedLeaves => if version >= version::V_1_21_5 {
            Layout::Color
        } else {
            Layout::Nothing
        },
        Kind::DragonBreath => if version >= version::V_1_21_9 {
            Layout::Float
        } else {
            Layout::Nothing
        },
        Kind::Effect | Kind::InstantEffect => if version >= version::V_1_21_9 {
            Layout::Spell
        } else {
            Layout::Nothing
        },
        Kind::Flash => if version >= version::V_1_21_9 {
            Layout::Color
        } else {
            Layout::Nothing
        },
        Kind::Geyser | Kind::GeyserPlume => if version >= version::V_26_2 {
            Layout::Geyser
        } else {
            Layout::Nothing
        },
        Kind::GeyserBase | Kind::GeyserPoof => if version >= version::V_26_2 {
            Layout::GeyserBase
        } else {
            Layout::Nothing
        },
    }
}

fn since(version: Version, first: Version, layout: Layout) -> (res: Layout)
    ensures
        res == if version >= first {
            layout
        } else {
            Layout::Nothing
        },
{
    if version >= first {
        layout
    } else {
        Layout::Nothing
    }
}

fn find_layout(kind: Kind, version: Version) -> (res: Layout)
    ensures
        res == layout_for(kind, version),
{
    match kind {
        Kind::Item => Layout::Item,
        Kind::Block | Kind::FallingDust => Layout::Block,
        Kind::BlockMarker => since(version, version::V_1_18, Layout::Block),
        Kind::DustPillar => since(version, version::V_1_20_5, Layout::Block),
        Kind::BlockCrumble => since(version, version::V_1_21_2, Layout::Block),
        Kind::Dust => if version >= version::V_1_21_2 {
            Layout::DustRgb
        } else {
            Layout::DustFloats
        },
        Kind::DustColorTransition => if version >= version::V_1_21_2 {
            Layout::TransitionRgb
        } else if version >= version::V_1_20_5 {
            Layout::TransitionScaleLast
        } else {
            since(version, version::V_1_17, Layout::TransitionScaleMid)
        },
        Kind::Vibration => if version >= version::V_1_20_3 {
            Layout::VibrationTyped
        } else if version >= version::V_1_19 {
            Layout::VibrationNamed
        } else {
            since(version, version::V_1_17, Layout::VibrationWithSource)
        },
        Kind::SculkCharge => since(version, version::V_1_19, Layout::Float),
        Kind::Shriek => since(version, version::V_1_19, Layout::Delay),
        Kind::EntityEffect => since(version, version::V_1_20_5, Layout::Color),
        Kind::Trail => if version >= version::V_1_21_4 {
            Layout::TrailWithDuration
        } else {
            since(version, version::V_1_21_2, Layout::Trail)
        },
        Kind::TintedLeaves => since(version, version::V_1_21_5, Layout::Color),
        Kind::DragonBreath => since(version, version::V_1_21_9, Layout::Float),
        Kind::Effect | Kind::InstantEffect => since(version, version::V_1_21_9, Layout::Spell),
        Kind::Flash => since(version, version::V_1_21_9, Layout::Color),
        Kind::Geyser | Kind::GeyserPlume => since(version, version::V_26_2, Layout::Geyser),
        Kind::GeyserBase | Kind::GeyserPoof => since(version, version::V_26_2, Layout::GeyserBase),
    }
}

/// The kinds in the order in which a release lists them: where a client has one
/// number for several, the first decides.
pub open spec fn kinds(version: Version) -> Seq<Kind> {
    if version >= version::V_1_21_2 {
        seq![
            Kind::Item,
            Kind::Block,
            Kind::BlockMarker,
            Kind::DustPillar,
            Kind::FallingDust,
            Kind::BlockCrumble,
            Kind::Dust,
            Kind::DustColorTransition,
            Kind::Vibration,
            Kind::SculkCharge,
            Kind::Shriek,
            Kind::EntityEffect,
            Kind::Trail,
            Kind::TintedLeaves,
            Kind::DragonBreath,
            Kind::Effect,
            Kind::InstantEffect,
            Kind::Flash,
            Kind::Geyser,
            Kind::GeyserBase,
            Kind::GeyserPoof,
            Kind::GeyserPlume,
        ]
    } else if version >= version::V_1_19 {
        seq![
            Kind::Item,
            Kind::Block,
            Kind::BlockMarker,
            Kind::Dust,
            Kind::FallingDust,
            Kind::DustColorTransition,
            Kind::Vibration,
            Kind::SculkCharge,
            Kind::Shriek,
            Kind::DustPillar,
            Kind::EntityEffect,
        ]
    } else {
        seq![
            Kind::Item,
            Kind::Block,
            Kind::Dust,
            Kind::FallingDust,
            Kind::DustColorTransition,
            Kind::Vibration,
            Kind::BlockMarker,
        ]
    }
}

fn listed_kinds(version: Version) -> (res: Vec<Kind>)
    ensures
        res@ == kinds(version),
{
    if version >= version::V_1_21_2 {
        vec![
            Kind::Item,
            Kind::Block,
            Kind::BlockMarker,
            Kind::DustPillar,
            Kind::FallingDust,
            Kind::BlockCrumble,
            Kind::Dust,
            Kind::DustColorTransition,
            Kind::Vibration,
            Kind::SculkCharge,
            Kind::Shriek,
            Kind::EntityEffect,
            Kind::Trail,
            Kind::TintedLeaves,
            Kind::DragonBreath,
            Kind::Effect,
            Kind::InstantEffect,
            Kind::Flash,
            Kind::Geyser,
            Kind::GeyserBase,
            Kind::GeyserPoof,
            Kind::GeyserPlume,
        ]
    } else if version >= version::V_1_19 {
        vec![
            Kind::Item,
            Kind::Block,
            Kind::BlockMarker,
            Kind::Dust,
            Kind::FallingDust,
            Kind::DustColorTransition,
            Kind::Vibration,
            Kind::SculkCharge,
            Kind::Shriek,
            Kind::DustPillar,
            Kind::EntityEffect,
        ]
    } else {
        vec![
            Kind::Item,
            Kind::Block,
            Kind::Dust,
            Kind::FallingDust,
            Kind::DustColorTransition,
            Kind::Vibration,
            Kind::BlockMarker,
        ]
    }
}

pub open spec fn named_from(kinds: Seq<Kind>, name: Seq<u8>, version: Version, i: int) -> Layout
    decreases kinds.len() - i,
{
    if i < 0 || i >= kinds.len() {
        Layout::Nothing
    } else if kind_name(kinds[i]) == name {
        layout_for(kinds[i], version)
    } else {
        named_from(kinds, name, version, i + 1)
    }
}

/// The data that the server's particle with an id carries in the layout of a
/// release.
pub open spec fn layout_of(id: i32, version: Version, cat: &Catalog) -> Layout {
    match catalog::name_at(cat.particles@, id) {
        Some(name) => if id <= 0xffff {
            named_from(kinds(version), name, version, 0)
        } else {
            Layout::Nothing
        },
        None => Layout::Nothing,
    }
}

/// Whether a client has a kind under a number.
pub open spec fn is_shown_as(kind: Kind, mapped: u32, to: &Target) -> bool {
    match catalog::index_of(to.cat.particles@, kind_name(kind)) {
        Some(id) => mapping::target_of(to.ids.particles@, id as u32) == Some(mapped),
        None => false,
    }
}

pub open spec fn shown_from(kinds: Seq<Kind>, mapped: u32, to: &Target, i: int) -> Layout
    decreases kinds.len() - i,
{
    if i < 0 || i >= kinds.len() {
        Layout::Nothing
    } else if layout_for(kinds[i], to.version) != Layout::Nothing && is_shown_as(kinds[i], mapped, to) {
        layout_for(kinds[i], to.version)
    } else {
        shown_from(kinds, mapped, to, i + 1)
    }
}

/// The data that a client reads for a number. A particle that it does not have is
/// shown as one that takes the same data, so the number decides.
pub open spec fn shown_layout(mapped: u32, to: &Target) -> Layout {
    shown_from(kinds(to.version), mapped, to, 0)
}

/// The data of the server's particle with an id, in the layout of a release.
#[verifier::loop_isolation(false)]
pub fn shape_of(id: i32, version: Version, cat: &Catalog) -> (res: Layout)
    ensures
        res == layout_of(id, version, cat),
{
    if id > 0xffff {
        return Layout::Nothing;
    }
    let name: &[u8] = match catalog::get_name(&cat.particles, id) {
        Some(name) => name,
        None => {
            return Layout::Nothing;
        },
    };
    let listed: Vec<Kind> = listed_kinds(version);
    let mut i: usize = 0;
    while i < listed.len()
        invariant
            i <= listed.len(),
            named_from(listed@, name@, version, 0) == named_from(listed@, name@, version, i as int),
        decreases listed.len() - i,
    {
        if wire::same_bytes(name_of(listed[i]).as_bytes(), name) {
            return find_layout(listed[i], version);
        }
        i = i + 1;
    }
    Layout::Nothing
}

fn shows_as(kind: Kind, mapped: u32, to: &Target) -> (res: bool)
    ensures
        res == is_shown_as(kind, mapped, to),
{
    match catalog::find_name(&to.cat.particles, name_of(kind).as_bytes()) {
        Some(id) => {
            proof {
                catalog::lemma_index_of(to.cat.particles@, kind_name(kind));
            }
            match to.ids.particles.map(id as u32) {
                Some(found) => found == mapped,
                None => false,
            }
        },
        None => false,
    }
}

/// The data that a client reads for a number.
#[verifier::loop_isolation(false)]
pub fn mapped_shape(mapped: u32, to: &Target) -> (res: Layout)
    ensures
        res == shown_layout(mapped, to),
{
    let listed: Vec<Kind> = listed_kinds(to.version);
    let mut i: usize = 0;
    while i < listed.len()
        invariant
            i <= listed.len(),
            shown_from(listed@, mapped, to, 0) == shown_from(listed@, mapped, to, i as int),
        decreases listed.len() - i,
    {
        let layout: Layout = find_layout(listed[i], to.version);
        if layout != Layout::Nothing && shows_as(listed[i], mapped, to) {
            return layout;
        }
        i = i + 1;
    }
    Layout::Nothing
}

// --- reading -----------------------------------------------------------------------------------------

/// What a reading step gives: a value with what stands behind it, or why there is none.
pub type Read<T> = Result<(T, Seq<u8>), TranslateError>;

/// A plain field as such a step.
pub open spec fn plain<T>(taken: Option<(T, Seq<u8>)>) -> Read<T> {
    match taken {
        Some(found) => Ok(found),
        None => Err(TranslateError::Malformed),
    }
}

/// One channel of a colour, as a float that is neither infinite nor no number.
pub open spec fn take_channel(s: Seq<u8>) -> Read<u8> {
    match wire::take_u32(s) {
        Some((bits, rest)) => match number::channel(bits) {
            Some(channel) => Ok((channel, rest)),
            None => Err(TranslateError::ParticleColor),
        },
        None => Err(TranslateError::Malformed),
    }
}

/// A colour of three floats, packed.
pub open spec fn take_rgb(s: Seq<u8>) -> Read<i32> {
    match take_channel(s) {
        Ok((r, s1)) => match take_channel(s1) {
            Ok((g, s2)) => match take_channel(s2) {
                Ok((b, rest)) => Ok(((r * 0x1_0000 + g * 0x100 + b) as i32, rest)),
                Err(error) => Err(error),
            },
            Err(error) => Err(error),
        },
        Err(error) => Err(error),
    }
}

/// A colour, of floats or packed already.
pub open spec fn take_color(s: Seq<u8>, floats: bool) -> Read<i32> {
    if floats {
        take_rgb(s)
    } else {
        plain(wire::take_i32(s))
    }
}

pub open spec fn take_dust(s: Seq<u8>, floats: bool) -> Read<Options> {
    match take_color(s, floats) {
        Ok((rgb, t)) => match wire::take_u32(t) {
            Some((scale, rest)) => Ok((Options::Dust { rgb, scale }, rest)),
            None => Err(TranslateError::Malformed),
        },
        Err(error) => Err(error),
    }
}

/// Two colours with a scale behind them.
pub open spec fn take_transition(s: Seq<u8>, floats: bool) -> Read<Options> {
    match take_color(s, floats) {
        Ok((from, t)) => match take_color(t, floats) {
            Ok((to, u)) => match wire::take_u32(u) {
                Some((scale, rest)) => Ok((Options::Transition { from, to, scale }, rest)),
                None => Err(TranslateError::Malformed),
            },
            Err(error) => Err(error),
        },
        Err(error) => Err(error),
    }
}

/// Two colours with a scale between them.
pub open spec fn take_transition_mid(s: Seq<u8>) -> Read<Options> {
    match take_rgb(s) {
        Ok((from, t)) => match wire::take_u32(t) {
            Some((scale, u)) => match take_rgb(u) {
                Ok((to, rest)) => Ok((Options::Transition { from, to, scale }, rest)),
                Err(error) => Err(error),
            },
            None => Err(TranslateError::Malformed),
        },
        Err(error) => Err(error),
    }
}

/// An entity that a vibration goes to; with `offset` how far above its feet.
pub open spec fn take_entity_source(s: Seq<u8>, offset: bool) -> Option<(VibrationSource, Seq<u8>)> {
    match wire::take_var_int(s) {
        Some((id, t)) => if offset {
            match wire::take_u32(t) {
                Some((y_offset, rest)) => Some((VibrationSource::Entity { id, y_offset }, rest)),
                None => None,
            }
        } else {
            Some((VibrationSource::Entity { id, y_offset: 0 }, t))
        },
        None => None,
    }
}

pub open spec fn take_block_source(s: Seq<u8>) -> Option<(VibrationSource, Seq<u8>)> {
    match wire::take_i64(s) {
        Some((position, rest)) => Some((VibrationSource::Block(position), rest)),
        None => None,
    }
}

/// Where a vibration goes, by number or by name.
pub open spec fn take_source(s: Seq<u8>, named: bool, offset: bool) -> Read<VibrationSource> {
    if named {
        match wire::take_str(s) {
            Some((name, t)) => if text::ends(name, wire::key(":block")) {
                plain(take_block_source(t))
            } else if text::ends(name, wire::key(":entity")) {
                plain(take_entity_source(t, offset))
            } else {
                Err(TranslateError::VibrationSource)
            },
            None => Err(TranslateError::Malformed),
        }
    } else {
        match wire::take_var_int(s) {
            Some((kind, t)) => if kind == 0 {
                plain(take_block_source(t))
            } else {
                plain(take_entity_source(t, offset))
            },
            None => Err(TranslateError::Malformed),
        }
    }
}

/// A vibration. In 1.17 and 1.18 an origin stands in front, and an entity has no
/// offset.
pub open spec fn take_vibration(s: Seq<u8>, layout: Layout) -> Read<Options> {
    let old = layout == Layout::VibrationWithSource;
    match (if old {
        wire::take_i64(s)
    } else {
        Some((0i64, s))
    }) {
        Some((origin, t)) => match take_source(t, layout != Layout::VibrationTyped, !old) {
            Ok((source, u)) => match wire::take_var_int(u) {
                Some((ticks, rest)) => Ok(
                    (
                        Options::Vibration {
                            origin: if old {
                                Some(origin)
                            } else {
                                None
                            },
                            source,
                            ticks,
                        },
                        rest,
                    ),
                ),
                None => Err(TranslateError::Malformed),
            },
            Err(error) => Err(error),
        },
        None => Err(TranslateError::Malformed),
    }
}

pub open spec fn take_trail(s: Seq<u8>, lasting: bool) -> Option<(Options, Seq<u8>)> {
    match wire::take_u64(s) {
        Some((x, s1)) => match wire::take_u64(s1) {
            Some((y, s2)) => match wire::take_u64(s2) {
                Some((z, s3)) => match wire::take_i32(s3) {
                    Some((color, s4)) => if lasting {
                        match wire::take_var_int(s4) {
                            Some((duration, rest)) => Some((Options::Trail { x, y, z, color, duration }, rest)),
                            None => None,
                        }
                    } else {
                        Some((Options::Trail { x, y, z, color, duration: 0 }, s4))
                    },
                    None => None,
                },
                None => None,
            },
            None => None,
        },
        None => None,
    }
}

/// A signed word with the bits of a float behind it.
pub open spec fn take_word_and_float(s: Seq<u8>) -> Option<((i32, u32), Seq<u8>)> {
    match wire::take_i32(s) {
        Some((word, t)) => match wire::take_u32(t) {
            Some((bits, rest)) => Some(((word, bits), rest)),
            None => None,
        },
        None => None,
    }
}

/// The data of a particle in a layout.
#[verifier::opaque]
pub open spec fn take_options(s: Seq<u8>, layout: Layout, from: &Target) -> Read<Options> {
    match layout {
        Layout::Nothing => Ok((Options::Nothing, s)),
        Layout::Item => match client_item::stack_native(s, from) {
            Some((stack, rest)) => Ok((Options::Item(stack), rest)),
            None => Err(TranslateError::ParticleItem),
        },
        Layout::Block => match wire::take_var_int(s) {
            Some((state, rest)) => if state < 0 {
                Err(TranslateError::BlockState)
            } else {
                Ok((Options::Block(state as u32), rest))
            },
            None => Err(TranslateError::Malformed),
        },
        Layout::DustRgb => take_dust(s, false),
        Layout::DustFloats => take_dust(s, true),
        Layout::TransitionRgb => take_transition(s, false),
        Layout::TransitionScaleLast => take_transition(s, true),
        Layout::TransitionScaleMid => take_transition_mid(s),
        Layout::VibrationTyped | Layout::VibrationNamed | Layout::VibrationWithSource => take_vibration(s, layout),
        Layout::Float => match wire::take_u32(s) {
            Some((bits, rest)) => Ok((Options::Float(bits), rest)),
            None => Err(TranslateError::Malformed),
        },
        Layout::Delay => match wire::take_var_int(s) {
            Some((ticks, rest)) => Ok((Options::Delay(ticks), rest)),
            None => Err(TranslateError::Malformed),
        },
        Layout::Color => match wire::take_i32(s) {
            Some((color, rest)) => Ok((Options::Color(color), rest)),
            None => Err(TranslateError::Malformed),
        },
        Layout::TrailWithDuration => plain(take_trail(s, true)),
        Layout::Trail => plain(take_trail(s, false)),
        Layout::Spell => match take_word_and_float(s) {
            Some(((color, power), rest)) => Ok((Options::Spell { color, power }, rest)),
            None => Err(TranslateError::Malformed),
        },
        Layout::Geyser => match wire::take_i32(s) {
            Some((water_blocks, rest)) => Ok((Options::Geyser { water_blocks, impulse: 0 }, rest)),
            None => Err(TranslateError::Malformed),
        },
        Layout::GeyserBase => match take_word_and_float(s) {
            Some(((water_blocks, impulse), rest)) => Ok((Options::Geyser { water_blocks, impulse }, rest)),
            None => Err(TranslateError::Malformed),
        },
    }
}

/// Whether a reading function gave the data that was wanted, or the error.
pub open spec fn gave(res: Result<ParticleData, TranslateError>, after: Seq<u8>, wanted: Read<Options>) -> bool {
    match wanted {
        Ok((options, rest)) => res is Ok && res->Ok_0@ == options && after == rest,
        Err(error) => res is Err && res->Err_0 == error,
    }
}

fn read_channel(r: &mut &[u8]) -> (res: Result<u8, TranslateError>)
    ensures
        match take_channel(old(r)@) {
            Ok((channel, rest)) => res == Ok::<u8, TranslateError>(channel) && final(r)@ == rest,
            Err(error) => res == Err::<u8, TranslateError>(error),
        },
{
    let bits: u32 = wire::or_malformed(wire::get_u32(r))?;
    match number::channel_from_bits(bits) {
        Some(channel) => Ok(channel),
        None => Err(TranslateError::ParticleColor),
    }
}

fn read_rgb_floats(r: &mut &[u8]) -> (res: Result<i32, TranslateError>)
    ensures
        match take_rgb(old(r)@) {
            Ok((rgb, rest)) => res == Ok::<i32, TranslateError>(rgb) && final(r)@ == rest,
            Err(error) => res == Err::<i32, TranslateError>(error),
        },
{
    let red: u8 = read_channel(r)?;
    let green: u8 = read_channel(r)?;
    let blue: u8 = read_channel(r)?;
    Ok(red as i32 * 0x1_0000 + green as i32 * 0x100 + blue as i32)
}

fn read_rgb(r: &mut &[u8], floats: bool) -> (res: Result<i32, TranslateError>)
    ensures
        match take_color(old(r)@, floats) {
            Ok((rgb, rest)) => res == Ok::<i32, TranslateError>(rgb) && final(r)@ == rest,
            Err(error) => res == Err::<i32, TranslateError>(error),
        },
{
    if floats {
        read_rgb_floats(r)
    } else {
        wire::or_malformed(wire::get_i32(r))
    }
}

fn read_dust(r: &mut &[u8], floats: bool) -> (res: Result<ParticleData, TranslateError>)
    ensures
        gave(res, final(r)@, take_dust(old(r)@, floats)),
{
    let rgb: i32 = read_rgb(r, floats)?;
    let scale: u32 = wire::or_malformed(wire::get_u32(r))?;
    Ok(ParticleData::Dust { rgb, scale })
}

fn read_transition(r: &mut &[u8], floats: bool) -> (res: Result<ParticleData, TranslateError>)
    ensures
        gave(res, final(r)@, take_transition(old(r)@, floats)),
{
    let from: i32 = read_rgb(r, floats)?;
    let to: i32 = read_rgb(r, floats)?;
    let scale: u32 = wire::or_malformed(wire::get_u32(r))?;
    Ok(ParticleData::Transition { from, to, scale })
}

fn read_transition_mid(r: &mut &[u8]) -> (res: Result<ParticleData, TranslateError>)
    ensures
        gave(res, final(r)@, take_transition_mid(old(r)@)),
{
    let from: i32 = read_rgb_floats(r)?;
    let scale: u32 = wire::or_malformed(wire::get_u32(r))?;
    let to: i32 = read_rgb_floats(r)?;
    Ok(ParticleData::Transition { from, to, scale })
}

fn read_entity_source(r: &mut &[u8], offset: bool) -> (res: Result<VibrationSource, ReadingError>)
    ensures
        match take_entity_source(old(r)@, offset) {
            Some((source, rest)) => res == Ok::<VibrationSource, ReadingError>(source) && final(r)@ == rest,
            None => res is Err,
        },
{
    let id: i32 = wire::get_var_int(r)?;
    let y_offset: u32 = if offset {
        wire::get_u32(r)?
    } else {
        0
    };
    Ok(VibrationSource::Entity { id, y_offset })
}

fn read_source(r: &mut &[u8], named: bool, offset: bool) -> (res: Result<VibrationSource, TranslateError>)
    ensures
        match take_source(old(r)@, named, offset) {
            Ok((source, rest)) => res == Ok::<VibrationSource, TranslateError>(source) && final(r)@ == rest,
            Err(error) => res == Err::<VibrationSource, TranslateError>(error),
        },
{
    let block: bool;
    if named {
        let name: &[u8] = wire::or_malformed(wire::get_str(r))?;
        if text::ends_with(name, ":block".as_bytes()) {
            block = true;
        } else if text::ends_with(name, ":entity".as_bytes()) {
            block = false;
        } else {
            return Err(TranslateError::VibrationSource);
        }
    } else {
        let kind: i32 = wire::or_malformed(wire::get_var_int(r))?;
        block = kind == 0;
    }
    if block {
        let position: i64 = wire::or_malformed(wire::get_i64(r))?;
        Ok(VibrationSource::Block(position))
    } else {
        wire::or_malformed(read_entity_source(r, offset))
    }
}

fn read_vibration(r: &mut &[u8], layout: Layout) -> (res: Result<ParticleData, TranslateError>)
    ensures
        gave(res, final(r)@, take_vibration(old(r)@, layout)),
{
    let old_form: bool = layout == Layout::VibrationWithSource;
    let origin: Option<i64> = if old_form {
        let origin: i64 = wire::or_malformed(wire::get_i64(r))?;
        Some(origin)
    } else {
        None
    };
    let source: VibrationSource = read_source(r, layout != Layout::VibrationTyped, !old_form)?;
    let ticks: i32 = wire::or_malformed(wire::get_var_int(r))?;
    Ok(ParticleData::Vibration { origin, source, ticks })
}

fn read_trail(r: &mut &[u8], lasting: bool) -> (res: Result<ParticleData, ReadingError>)
    ensures
        match take_trail(old(r)@, lasting) {
            Some((trail, rest)) => res is Ok && res->Ok_0@ == trail && final(r)@ == rest,
            None => res is Err,
        },
{
    let x: u64 = wire::get_u64(r)?;
    let y: u64 = wire::get_u64(r)?;
    let z: u64 = wire::get_u64(r)?;
    let color: i32 = wire::get_i32(r)?;
    let duration: i32 = if lasting {
        wire::get_var_int(r)?
    } else {
        0
    };
    Ok(ParticleData::Trail { x, y, z, color, duration })
}

fn read_word_and_float(r: &mut &[u8]) -> (res: Result<(i32, u32), ReadingError>)
    ensures
        match take_word_and_float(old(r)@) {
            Some((pair, rest)) => res == Ok::<(i32, u32), ReadingError>(pair) && final(r)@ == rest,
            None => res is Err,
        },
{
    let word: i32 = wire::get_i32(r)?;
    let bits: u32 = wire::get_u32(r)?;
    Ok((word, bits))
}

/// Reads the data of a particle in a layout.
pub fn read_data(r: &mut &[u8], layout: Layout, from: &Target) -> (res: Result<ParticleData, TranslateError>)
    ensures
        gave(res, final(r)@, take_options(old(r)@, layout, from)),
{
    reveal(take_options);
    match layout {
        Layout::Nothing => Ok(ParticleData::Nothing),
        Layout::Item => match client_item::read_native_item_value(r, from) {
            Some(stack) => Ok(ParticleData::Item(stack)),
            None => Err(TranslateError::ParticleItem),
        },
        Layout::Block => {
            let state: i32 = wire::or_malformed(wire::get_var_int(r))?;
            if state < 0 {
                return Err(TranslateError::BlockState);
            }
            Ok(ParticleData::Block(state as u32))
        },
        Layout::DustRgb => read_dust(r, false),
        Layout::DustFloats => read_dust(r, true),
        Layout::TransitionRgb => read_transition(r, false),
        Layout::TransitionScaleLast => read_transition(r, true),
        Layout::TransitionScaleMid => read_transition_mid(r),
        Layout::VibrationTyped | Layout::VibrationNamed | Layout::VibrationWithSource => read_vibration(r, layout),
        Layout::Float => {
            let bits: u32 = wire::or_malformed(wire::get_u32(r))?;
            Ok(ParticleData::Float(bits))
        },
        Layout::Delay => {
            let ticks: i32 = wire::or_malformed(wire::get_var_int(r))?;
            Ok(ParticleData::Delay(ticks))
        },
        Layout::Color => {
            let color: i32 = wire::or_malformed(wire::get_i32(r))?;
            Ok(ParticleData::Color(color))
        },
        Layout::TrailWithDuration => wire::or_malformed(read_trail(r, true)),
        Layout::Trail => wire::or_malformed(read_trail(r, false)),
        Layout::Spell => {
            let (color, power): (i32, u32) = wire::or_malformed(read_word_and_float(r))?;
            Ok(ParticleData::Spell { color, power })
        },
        Layout::Geyser => {
            let water_blocks: i32 = wire::or_malformed(wire::get_i32(r))?;
            Ok(ParticleData::Geyser { water_blocks, impulse: 0 })
        },
        Layout::GeyserBase => {
            let (water_blocks, impulse): (i32, u32) = wire::or_malformed(read_word_and_float(r))?;
            Ok(ParticleData::Geyser { water_blocks, impulse })
        },
    }
}

// --- writing -----------------------------------------------------------------------------------------

/// A packed colour as three floats.
pub open spec fn enc_rgb(rgb: i32) -> Seq<u8> {
    let bits = wire::bits_of_i32(rgb);
    wire::enc_u32(number::fraction((bits / 0x1_0000 % 0x100) as u8)) + wire::enc_u32(
        number::fraction((bits / 0x100 % 0x100) as u8),
    ) + wire::enc_u32(number::fraction((bits % 0x100) as u8))
}

/// Where a vibration goes; by name where `named`, and with the offset of an entity
/// where `offset`.
pub open spec fn enc_source(source: VibrationSource, named: bool, offset: bool) -> Seq<u8> {
    match source {
        VibrationSource::Block(position) => (if named {
            wire::enc_str(wire::key("minecraft:block"))
        } else {
            wire::enc_var_int(0)
        }) + wire::enc_i64(position),
        VibrationSource::Entity { id, y_offset } => (if named {
            wire::enc_str(wire::key("minecraft:entity"))
        } else {
            wire::enc_var_int(1)
        }) + wire::enc_var_int(id) + (if offset {
            wire::enc_u32(y_offset)
        } else {
            seq![]
        }),
    }
}

pub open spec fn enc_trail(x: u64, y: u64, z: u64, color: i32) -> Seq<u8> {
    wire::enc_u64(x) + wire::enc_u64(y) + wire::enc_u64(z) + wire::enc_i32(color)
}

/// The client's number for a block state; zero where it has none.
pub open spec fn state_mapped(state: u32, to: &Target) -> i32 {
    match mapping::target_of(to.ids.block_states@, state) {
        Some(mapped) => if mapped <= i32::MAX {
            mapped as i32
        } else {
            0
        },
        None => 0,
    }
}

/// The bytes of a particle's data in a layout, but for those of a stack; none
/// where the layout cannot say it.
pub open spec fn enc_options(options: Options, layout: Layout, to: &Target) -> Option<Seq<u8>> {
    match options {
        Options::Nothing => if layout == Layout::Nothing {
            Some(seq![])
        } else {
            None
        },
        Options::Block(state) => if layout == Layout::Block {
            Some(wire::enc_var_int(state_mapped(state, to)))
        } else {
            None
        },
        Options::Dust { rgb, scale } => if layout == Layout::DustRgb {
            Some(wire::enc_i32(rgb) + wire::enc_u32(scale))
        } else if layout == Layout::DustFloats {
            Some(enc_rgb(rgb) + wire::enc_u32(scale))
        } else {
            None
        },
        Options::Transition { from, to, scale } => if layout == Layout::TransitionRgb {
            Some(wire::enc_i32(from) + wire::enc_i32(to) + wire::enc_u32(scale))
        } else if layout == Layout::TransitionScaleLast {
            Some(enc_rgb(from) + enc_rgb(to) + wire::enc_u32(scale))
        } else if layout == Layout::TransitionScaleMid {
            Some(enc_rgb(from) + wire::enc_u32(scale) + enc_rgb(to))
        } else {
            None
        },
        Options::Vibration { origin, source, ticks } => if layout == Layout::VibrationTyped {
            Some(enc_source(source, false, true) + wire::enc_var_int(ticks))
        } else if layout == Layout::VibrationNamed {
            Some(enc_source(source, true, true) + wire::enc_var_int(ticks))
        } else if layout == Layout::VibrationWithSource {
            match origin {
                Some(origin) => Some(
                    wire::enc_i64(origin) + enc_source(source, true, false) + wire::enc_var_int(ticks),
                ),
                None => None,
            }
        } else {
            None
        },
        Options::Float(bits) => if layout == Layout::Float {
            Some(wire::enc_u32(bits))
        } else {
            None
        },
        Options::Delay(ticks) => if layout == Layout::Delay {
            Some(wire::enc_var_int(ticks))
        } else {
            None
        },
        Options::Color(color) => if layout == Layout::Color {
            Some(wire::enc_i32(color))
        } else {
            None
        },
        Options::Trail { x, y, z, color, duration } => if layout == Layout::Trail {
            Some(enc_trail(x, y, z, color))
        } else if layout == Layout::TrailWithDuration {
            Some(enc_trail(x, y, z, color) + wire::enc_var_int(duration))
        } else {
            None
        },
        Options::Spell { color, power } => if layout == Layout::Spell {
            Some(wire::enc_i32(color) + wire::enc_u32(power))
        } else {
            None
        },
        Options::Geyser { water_blocks, impulse } => if layout == Layout::Geyser {
            Some(wire::enc_i32(water_blocks))
        } else if layout == Layout::GeyserBase {
            Some(wire::enc_i32(water_blocks) + wire::enc_u32(impulse))
        } else {
            None
        },
        Options::Item(stack) => None,
    }
}

/// A stack that fills its place.
pub open spec fn whole_stack(written: Option<(Seq<u8>, Seq<u8>)>) -> Option<Seq<u8>> {
    match written {
        Some((bytes, rest)) => if rest.len() == 0 {
            Some(bytes)
        } else {
            None
        },
        None => None,
    }
}

/// The bytes of a particle's data in a layout; `native` has the tables of the
/// server's own release.
#[verifier::opaque]
pub open spec fn options_written(options: Options, layout: Layout, native: &Target, to: &Target) -> Option<Seq<u8>> {
    match options {
        Options::Item(stack) => if layout == Layout::Item {
            whole_stack(client_item::stack_rewritten(stack, native, to))
        } else {
            None
        },
        _ => enc_options(options, layout, to),
    }
}

/// As `options_written`, with what a stack loses kept on the connection.
#[verifier::opaque]
pub open spec fn options_kept(
    rows: Seq<Row>,
    options: Options,
    layout: Layout,
    hashes: Seq<ComponentHash>,
    native: &Target,
    to: &Target,
) -> (Seq<Row>, Option<Seq<u8>>) {
    match options {
        Options::Item(stack) => if layout == Layout::Item {
            let (kept, written) = client_item::stack_kept(rows, stack, hashes, native, to);
            (kept, whole_stack(written))
        } else {
            (rows, None)
        },
        _ => (rows, enc_options(options, layout, to)),
    }
}

fn rgb_floats(rgb: i32, out: &mut Vec<u8>)
    ensures
        final(out)@ == old(out)@ + enc_rgb(rgb),
{
    let bits: u32 = wire::i32_to_bits(rgb);
    let ghost before = out@;
    wire::write_u32(out, number::fraction_bits((bits / 0x1_0000 % 0x100) as u8));
    wire::write_u32(out, number::fraction_bits((bits / 0x100 % 0x100) as u8));
    wire::write_u32(out, number::fraction_bits((bits % 0x100) as u8));
    assert(out@ =~= before + enc_rgb(rgb));
}

fn write_source(out: &mut Vec<u8>, source: VibrationSource, named: bool, offset: bool)
    ensures
        final(out)@ == old(out)@ + enc_source(source, named, offset),
{
    let ghost before = out@;
    match source {
        VibrationSource::Block(position) => {
            if named {
                wire::write_str(out, "minecraft:block".as_bytes());
            } else {
                wire::write_var_int(out, 0);
            }
            wire::write_i64(out, position);
        },
        VibrationSource::Entity { id, y_offset } => {
            if named {
                wire::write_str(out, "minecraft:entity".as_bytes());
            } else {
                wire::write_var_int(out, 1);
            }
            wire::write_var_int(out, id);
            if offset {
                wire::write_u32(out, y_offset);
            }
        },
    }
    assert(out@ =~= before + enc_source(source, named, offset));
}

fn write_trail(out: &mut Vec<u8>, x: u64, y: u64, z: u64, color: i32)
    ensures
        final(out)@ == old(out)@ + enc_trail(x, y, z, color),
{
    let ghost before = out@;
    wire::write_u64(out, x);
    wire::write_u64(out, y);
    wire::write_u64(out, z);
    wire::write_i32(out, color);
    assert(out@ =~= before + enc_trail(x, y, z, color));
}

fn map_state(state: u32, to: &Target) -> (res: i32)
    ensures
        res == state_mapped(state, to),
{
    match to.ids.block_states.map(state) {
        Some(mapped) => if mapped <= 0x7fff_ffff {
            mapped as i32
        } else {
            0
        },
        None => 0,
    }
}

/// The data of a particle in a layout, but for that of a stack; `None` where the
/// layout cannot say it.
fn plain_data(data: &ParticleData, layout: Layout, to: &Target) -> (res: Option<Vec<u8>>)
    ensures
        match enc_options(data@, layout, to) {
            Some(bytes) => res is Some && res.unwrap()@ == bytes,
            None => res is None,
        },
{
    let mut out: Vec<u8> = Vec::new();
    match data {
        ParticleData::Nothing => {
            if layout != Layout::Nothing {
                return None;
            }
            assert(out@ =~= seq![]);
        },
        ParticleData::Block(state) => {
            if layout != Layout::Block {
                return None;
            }
            out = wire::var_int_bytes(map_state(*state, to));
        },
        ParticleData::Dust { rgb, scale } => {
            if layout == Layout::DustRgb {
                wire::write_i32(&mut out, *rgb);
                assert(out@ =~= wire::enc_i32(*rgb));
            } else if layout == Layout::DustFloats {
                rgb_floats(*rgb, &mut out);
                assert(out@ =~= enc_rgb(*rgb));
            } else {
                return None;
            }
            wire::write_u32(&mut out, *scale);
        },
        ParticleData::Transition { from, to: target, scale } => {
            if layout == Layout::TransitionRgb {
                wire::write_i32(&mut out, *from);
                assert(out@ =~= wire::enc_i32(*from));
                wire::write_i32(&mut out, *target);
                wire::write_u32(&mut out, *scale);
            } else if layout == Layout::TransitionScaleLast {
                rgb_floats(*from, &mut out);
                assert(out@ =~= enc_rgb(*from));
                rgb_floats(*target, &mut out);
                wire::write_u32(&mut out, *scale);
            } else if layout == Layout::TransitionScaleMid {
                rgb_floats(*from, &mut out);
                assert(out@ =~= enc_rgb(*from));
                wire::write_u32(&mut out, *scale);
                rgb_floats(*target, &mut out);
            } else {
                return None;
            }
        },
        ParticleData::Vibration { origin, source, ticks } => {
            if layout == Layout::VibrationTyped {
                write_source(&mut out, *source, false, true);
                assert(out@ =~= enc_source(*source, false, true));
            } else if layout == Layout::VibrationNamed {
                write_source(&mut out, *source, true, true);
                assert(out@ =~= enc_source(*source, true, true));
            } else if layout == Layout::VibrationWithSource {
                match origin {
                    Some(origin) => {
                        wire::write_i64(&mut out, *origin);
                        assert(out@ =~= wire::enc_i64(*origin));
                        write_source(&mut out, *source, true, false);
                    },
                    None => {
                        return None;
                    },
                }
            } else {
                return None;
            }
            wire::write_var_int(&mut out, *ticks);
        },
        ParticleData::Float(bits) => {
            if layout != Layout::Float {
                return None;
            }
            wire::write_u32(&mut out, *bits);
            assert(out@ =~= wire::enc_u32(*bits));
        },
        ParticleData::Delay(ticks) => {
            if layout != Layout::Delay {
                return None;
            }
            out = wire::var_int_bytes(*ticks);
        },
        ParticleData::Color(color) => {
            if layout != Layout::Color {
                return None;
            }
            wire::write_i32(&mut out, *color);
            assert(out@ =~= wire::enc_i32(*color));
        },
        ParticleData::Trail { x, y, z, color, duration } => {
            if layout != Layout::Trail && layout != Layout::TrailWithDuration {
                return None;
            }
            write_trail(&mut out, *x, *y, *z, *color);
            assert(out@ =~= enc_trail(*x, *y, *z, *color));
            if layout == Layout::TrailWithDuration {
                wire::write_var_int(&mut out, *duration);
            }
        },
        ParticleData::Spell { color, power } => {
            if layout != Layout::Spell {
                return None;
            }
            wire::write_i32(&mut out, *color);
            assert(out@ =~= wire::enc_i32(*color));
            wire::write_u32(&mut out, *power);
        },
        ParticleData::Geyser { water_blocks, impulse } => {
            if layout != Layout::Geyser && layout != Layout::GeyserBase {
                return None;
            }
            wire::write_i32(&mut out, *water_blocks);
            assert(out@ =~= wire::enc_i32(*water_blocks));
            if layout == Layout::GeyserBase {
                wire::write_u32(&mut out, *impulse);
            }
        },
        ParticleData::Item(_) => {
            return None;
        },
    }
    Some(out)
}

/// The data of a particle in a layout. `None` where the layout cannot say it:
/// the particle is then left out, for the client could not read other bytes.
pub fn write_data(data: &ParticleData, layout: Layout, native: &Target, to: &Target) -> (res: Option<Vec<u8>>)
    ensures
        match options_written(data@, layout, native, to) {
            Some(bytes) => res is Some && res.unwrap()@ == bytes,
            None => res is None,
        },
{
    reveal(options_written);
    match data {
        ParticleData::Item(stack) => {
            if layout != Layout::Item {
                return None;
            }
            let mut r: &[u8] = stack.as_slice();
            match client_item::rewrite_item_value(&mut r, native, to) {
                Some(bytes) => if r.len() == 0 {
                    Some(bytes)
                } else {
                    None
                },
                None => None,
            }
        },
        _ => plain_data(data, layout, to),
    }
}

/// As `write_data`, with what a stack loses kept on the connection.
pub fn write_data_with_connection(
    data: &ParticleData,
    layout: Layout,
    hashes: &Vec<ComponentHash>,
    native: &Target,
    to: &Target,
    connection: &mut UserConnection,
) -> (res: Option<Vec<u8>>)
    ensures
        ({
            let wanted = options_kept(old(connection).backups@, data@, layout, hashes@, native, to);
            final(connection).backups@ == wanted.0 && match wanted.1 {
                Some(bytes) => res is Some && res.unwrap()@ == bytes,
                None => res is None,
            }
        }),
        item_backup::same_but_backups(*final(connection), *old(connection)),
{
    reveal(options_kept);
    match data {
        ParticleData::Item(stack) => {
            if layout != Layout::Item {
                return None;
            }
            let mut r: &[u8] = stack.as_slice();
            match client_item::rewrite_item_value_with_connection(&mut r, native, to, hashes, connection) {
                Some(bytes) => if r.len() == 0 {
                    Some(bytes)
                } else {
                    None
                },
                None => None,
            }
        },
        _ => plain_data(data, layout, to),
    }
}

// --- particles ---------------------------------------------------------------------------------------

#[verifier::ext_equal]
pub struct ParticleView {
    pub id: i32,
    pub data: Options,
}

impl View for Particle {
    type V = ParticleView;

    open spec fn view(&self) -> ParticleView {
        ParticleView { id: self.id, data: self.data@ }
    }
}

/// A particle as the server writes it.
pub open spec fn take_particle(s: Seq<u8>, native: &Target) -> Read<ParticleView> {
    match wire::take_var_int(s) {
        Some((id, t)) => match take_options(t, layout_of(id, version::V_26_3, native.cat), native) {
            Ok((data, rest)) => Ok((ParticleView { id, data }, rest)),
            Err(error) => Err(error),
        },
        None => Err(TranslateError::Malformed),
    }
}

/// A particle in the numbers and layouts of a release, as the server has it.
pub open spec fn take_particle_from(s: Seq<u8>, from: &Target) -> Read<ParticleView> {
    match wire::take_var_int(s) {
        Some((wire_id, t)) => match mapping::unmapped(from.ids.particles@, wire_id) {
            Some(id) => match take_options(t, layout_of(id, from.version, from.cat), from) {
                Ok((Options::Block(state), rest)) => match mapping::source_of(
                    from.ids.block_states@,
                    state,
                ) {
                    Some(native) => Ok((ParticleView { id, data: Options::Block(native) }, rest)),
                    None => Err(TranslateError::BlockState),
                },
                Ok((data, rest)) => Ok((ParticleView { id, data }, rest)),
                Err(error) => Err(error),
            },
            None => Err(TranslateError::ParticleNumber),
        },
        None => Err(TranslateError::Malformed),
    }
}

/// Whether a reading function gave the particle that was wanted, or the error.
pub open spec fn gave_particle(res: Result<Particle, TranslateError>, after: Seq<u8>, wanted: Read<ParticleView>) -> bool {
    match wanted {
        Ok((particle, rest)) => res is Ok && res->Ok_0@ == particle && after == rest,
        Err(error) => res is Err && res->Err_0 == error,
    }
}

/// Reads the data that the server writes for a particle.
pub fn read_particle_data(r: &mut &[u8], id: i32, native: &Target) -> (res: Result<ParticleData, TranslateError>)
    ensures
        gave(
            res,
            final(r)@,
            take_options(old(r)@, layout_of(id, version::V_26_3, native.cat), native),
        ),
{
    read_data(r, shape_of(id, version::V_26_3, native.cat), native)
}

/// Reads a particle as the server writes it.
pub fn read_particle(r: &mut &[u8], native: &Target) -> (res: Result<Particle, TranslateError>)
    ensures
        gave_particle(res, final(r)@, take_particle(old(r)@, native)),
{
    let id: i32 = wire::or_malformed(wire::get_var_int(r))?;
    let data: ParticleData = read_particle_data(r, id, native)?;
    Ok(Particle { id, data })
}

/// Reads a particle as a value among others: one that is refused is malformed, whatever
/// the reason.
pub fn get_particle(r: &mut &[u8], native: &Target) -> (res: Result<Particle, ReadingError>)
    ensures
        match take_particle(old(r)@, native) {
            Ok((particle, rest)) => res is Ok && res->Ok_0@ == particle && final(r)@ == rest,
            Err(_) => res is Err,
        },
{
    match read_particle(r, native) {
        Ok(particle) => Ok(particle),
        Err(_) => Err(ReadingError::Malformed),
    }
}

/// Reads a particle in the numbers and layouts of a release.
pub fn read_particle_for_layout(r: &mut &[u8], from: &Target) -> (res: Result<Particle, TranslateError>)
    ensures
        gave_particle(res, final(r)@, take_particle_from(old(r)@, from)),
{
    let wire_id: i32 = wire::or_malformed(wire::get_var_int(r))?;
    let id: i32 = match from.ids.particles.unmap_id(wire_id) {
        Some(id) => id,
        None => {
            return Err(TranslateError::ParticleNumber);
        },
    };
    let data: ParticleData = read_data(r, shape_of(id, from.version, from.cat), from)?;
    match data {
        ParticleData::Block(state) => match from.ids.block_states.unmap(state) {
            Some(native) => Ok(Particle { id, data: ParticleData::Block(native) }),
            None => Err(TranslateError::BlockState),
        },
        other => Ok(Particle { id, data: other }),
    }
}

/// The client's number for a particle; none where it has nothing to show in its
/// place.
pub fn mapped_id(particle: i32, ids: &ComposedMappings) -> (res: Option<i32>)
    ensures
        res == mapping::mapped(ids.particles@, particle),
{
    ids.particles.map_id(particle)
}

/// A particle in the numbers and layouts of the client; none where the client
/// cannot be told of it.
pub open spec fn particle_written(particle: ParticleView, native: &Target, to: &Target) -> Option<Seq<u8>> {
    match mapping::mapped(to.ids.particles@, particle.id) {
        Some(mapped) => match options_written(particle.data, shown_layout(mapped as u32, to), native, to) {
            Some(data) => Some(wire::enc_var_int(mapped) + data),
            None => None,
        },
        None => None,
    }
}

/// As `particle_written`, with what a stack loses kept on the connection.
pub open spec fn particle_kept(
    rows: Seq<Row>,
    particle: ParticleView,
    hashes: Seq<ComponentHash>,
    native: &Target,
    to: &Target,
) -> (Seq<Row>, Option<Seq<u8>>) {
    match mapping::mapped(to.ids.particles@, particle.id) {
        Some(mapped) => {
            let (kept, data) = options_kept(
                rows,
                particle.data,
                shown_layout(mapped as u32, to),
                hashes,
                native,
                to,
            );
            (
                kept,
                match data {
                    Some(data) => Some(wire::enc_var_int(mapped) + data),
                    None => None,
                },
            )
        },
        None => (rows, None),
    }
}

/// Writes a particle for the client; `false`, with nothing written, where the
/// client cannot be told of it.
pub fn write_particle(out: &mut Vec<u8>, particle: &Particle, native: &Target, to: &Target) -> (res: bool)
    ensures
        match particle_written(particle@, native, to) {
            Some(bytes) => res && final(out)@ == old(out)@ + bytes,
            None => !res && final(out)@ == old(out)@,
        },
{
    let ghost before = out@;
    let mapped: i32 = match mapped_id(particle.id, to.ids) {
        Some(mapped) => mapped,
        None => {
            return false;
        },
    };
    proof {
        mapping::lemma_mapped_is_natural(to.ids.particles@, particle.id);
    }
    match write_data(&particle.data, mapped_shape(mapped as u32, to), native, to) {
        Some(data) => {
            wire::write_var_int(out, mapped);
            wire::write_bytes(out, data.as_slice());
            assert(out@ =~= before + (wire::enc_var_int(mapped) + data@));
            true
        },
        None => false,
    }
}

/// As `write_particle`, with what a stack loses kept on the connection.
pub fn write_particle_with_connection(
    out: &mut Vec<u8>,
    particle: &Particle,
    hashes: &Vec<ComponentHash>,
    native: &Target,
    to: &Target,
    connection: &mut UserConnection,
) -> (res: bool)
    ensures
        ({
            let wanted = particle_kept(old(connection).backups@, particle@, hashes@, native, to);
            final(connection).backups@ == wanted.0 && match wanted.1 {
                Some(bytes) => res && final(out)@ == old(out)@ + bytes,
                None => !res && final(out)@ == old(out)@,
            }
        }),
        item_backup::same_but_backups(*final(connection), *old(connection)),
{
    let ghost before = out@;
    let mapped: i32 = match mapped_id(particle.id, to.ids) {
        Some(mapped) => mapped,
        None => {
            return false;
        },
    };
    proof {
        mapping::lemma_mapped_is_natural(to.ids.particles@, particle.id);
    }
    match write_data_with_connection(
        &particle.data,
        mapped_shape(mapped as u32, to),
        hashes,
        native,
        to,
        connection,
    ) {
        Some(data) => {
            wire::write_var_int(out, mapped);
            wire::write_bytes(out, data.as_slice());
            assert(out@ =~= before + (wire::enc_var_int(mapped) + data@));
            true
        },
        None => false,
    }
}

/// The bytes of a particle as the server writes it.
pub open spec fn enc_particle(particle: ParticleView, native: &Target) -> Option<Seq<u8>> {
    match options_written(
        particle.data,
        layout_of(particle.id, version::V_26_3, native.cat),
        native,
        native,
    ) {
        Some(data) => Some(wire::enc_var_int(particle.id) + data),
        None => None,
    }
}

/// One particle as the server writes it: its number and its data.
pub struct ParticleT<'a> {
    pub native: Target<'a>,
}

impl<'a> ParticleT<'a> {
    pub fn read(&self, r: &mut &[u8]) -> (res: Result<Particle, ReadingError>)
        ensures
            match take_particle(old(r)@, &self.native) {
                Ok((particle, rest)) => res is Ok && res->Ok_0@ == particle && final(r)@ == rest,
                Err(_) => res is Err,
            },
    {
        get_particle(r, &self.native)
    }

    /// `false`, with nothing written, where the data is not that of the particle.
    pub fn write(&self, out: &mut Vec<u8>, particle: &Particle) -> (res: bool)
        ensures
            match enc_particle(particle@, &self.native) {
                Some(bytes) => res && final(out)@ == old(out)@ + bytes,
                None => !res && final(out)@ == old(out)@,
            },
    {
        let ghost before = out@;
        let layout: Layout = shape_of(particle.id, version::V_26_3, self.native.cat);
        match write_data(&particle.data, layout, &self.native, &self.native) {
            Some(data) => {
                wire::write_var_int(out, particle.id);
                wire::write_bytes(out, data.as_slice());
                assert(out@ =~= before + (wire::enc_var_int(particle.id) + data@));
                true
            },
            None => false,
        }
    }
}

// --- positions -----------------------------------------------------------------------------------------

/// The block that holds a position, packed; none where it lies outside the world
/// that a word can hold.
pub open spec fn origin_of(x: u64, y: u64, z: u64) -> Option<i64> {
    match (
        number::floor_within(x, -0x200_0000i32, 0x1ff_ffff),
        number::floor_within(y, -0x800i32, 0x7ff),
        number::floor_within(z, -0x200_0000i32, 0x1ff_ffff),
    ) {
        (Some(x), Some(y), Some(z)) => Some(position::packed(x as int, y as int, z as int)),
        _ => None,
    }
}

/// The block that holds a position, packed.
pub fn vibration_origin(x: u64, y: u64, z: u64) -> (res: Option<i64>)
    ensures
        res == origin_of(x, y, z),
{
    match (
        number::floor_in_range(x, -0x200_0000, 0x1ff_ffff),
        number::floor_in_range(y, -0x800, 0x7ff),
        number::floor_in_range(z, -0x200_0000, 0x1ff_ffff),
    ) {
        (Some(x), Some(y), Some(z)) => {
            Some(position::pack_block_position(x as i64, y as i64, z as i64))
        },
        _ => None,
    }
}

// --- packets -----------------------------------------------------------------------------------------

/// What a packet step leaves: the connection's backups, and what `Shown` says.
pub type Kept = (Seq<Row>, Shown);

/// Whether a step of a packet did what was wanted; `false` drops the packet.
pub open spec fn did(
    res: Result<bool, ReadingError>,
    before: (UserConnection, Seq<u8>),
    after: (UserConnection, Seq<u8>, Seq<u8>),
    wanted: Kept,
) -> bool {
    &&& after.0.backups@ == wanted.0
    &&& item_backup::same_but_backups(after.0, before.0)
    &&& match wanted.1 {
        Some(Some((bytes, rest))) => res == Ok::<bool, ReadingError>(true) && after.1 == before.1 + bytes && after.2
            == rest,
        Some(None) => res == Ok::<bool, ReadingError>(false),
        None => res is Err,
    }
}

/// A step that comes after `head` was written.
pub open spec fn behind(head: Seq<u8>, step: Kept) -> Kept {
    (
        step.0,
        match step.1 {
            Some(Some((bytes, rest))) => Some(Some((head + bytes, rest))),
            other => other,
        },
    )
}

/// A particle with the place of an origin filled, where the release wants one.
pub open spec fn with_origin(particle: ParticleView, origin: Option<i64>, version: Version) -> ParticleView {
    match particle.data {
        Options::Vibration { source, ticks, .. } => if version < version::V_1_19 {
            ParticleView { id: particle.id, data: Options::Vibration { origin, source, ticks } }
        } else {
            particle
        },
        _ => particle,
    }
}

/// A particle of a packet, for the client.
pub open spec fn packet_particle(
    rows: Seq<Row>,
    s: Seq<u8>,
    origin: Option<i64>,
    hashes: Seq<ComponentHash>,
    native: &Target,
    to: &Target,
) -> Kept {
    match take_particle(s, native) {
        Ok((particle, rest)) => {
            let (kept, written) = particle_kept(
                rows,
                with_origin(particle, origin, to.version),
                hashes,
                native,
                to,
            );
            (
                kept,
                match written {
                    Some(bytes) => Some(Some((bytes, rest))),
                    None => Some(None),
                },
            )
        },
        Err(_) => (rows, None),
    }
}

fn set_origin(particle: Particle, origin: Option<i64>, version: Version) -> (res: Particle)
    ensures
        res@ == with_origin(particle@, origin, version),
{
    if version >= version::V_1_19 {
        return particle;
    }
    let Particle { id, data } = particle;
    match data {
        ParticleData::Vibration { origin: _, source, ticks } => Particle {
            id,
            data: ParticleData::Vibration { origin, source, ticks },
        },
        other => Particle { id, data: other },
    }
}

fn rewrite_particle_with_origin(
    connection: &mut UserConnection,
    r: &mut &[u8],
    out: &mut Vec<u8>,
    origin: Option<i64>,
    hashes: &Vec<ComponentHash>,
    native: &Target,
    to: &Target,
) -> (res: Result<bool, ReadingError>)
    ensures
        did(
            res,
            (*old(connection), old(out)@),
            (*final(connection), final(out)@, final(r)@),
            packet_particle(old(connection).backups@, old(r)@, origin, hashes@, native, to),
        ),
{
    let particle: Particle = get_particle(r, native)?;
    let particle: Particle = set_origin(particle, origin, to.version);
    Ok(write_particle_with_connection(out, &particle, hashes, native, to, connection))
}

/// Translates a particle of a packet; `false` where the client has nothing to show
/// it as.
pub fn rewrite_particle_packet_with_connection(
    connection: &mut UserConnection,
    r: &mut &[u8],
    out: &mut Vec<u8>,
    hashes: &Vec<ComponentHash>,
    native: &Target,
    to: &Target,
) -> (res: Result<bool, ReadingError>)
    ensures
        did(
            res,
            (*old(connection), old(out)@),
            (*final(connection), final(out)@, final(r)@),
            packet_particle(old(connection).backups@, old(r)@, None, hashes@, native, to),
        ),
{
    rewrite_particle_with_origin(connection, r, out, None, hashes, native, to)
}

/// As `packet_particle`, with nothing kept.
pub open spec fn lone_particle(s: Seq<u8>, native: &Target, to: &Target) -> Shown {
    match take_particle(s, native) {
        Ok((particle, rest)) => match particle_written(with_origin(particle, None, to.version), native, to) {
            Some(bytes) => Some(Some((bytes, rest))),
            None => Some(None),
        },
        Err(_) => None,
    }
}

/// Translates a particle with no connection at hand; `false` where the client has
/// nothing to show it as.
pub fn rewrite_particle(r: &mut &[u8], out: &mut Vec<u8>, native: &Target, to: &Target) -> (res: Result<
    bool,
    ReadingError,
>)
    ensures
        match lone_particle(old(r)@, native, to) {
            Some(Some((bytes, rest))) => res == Ok::<bool, ReadingError>(true) && final(out)@ == old(out)@ + bytes
                && final(r)@ == rest,
            Some(None) => res == Ok::<bool, ReadingError>(false) && final(out)@ == old(out)@,
            None => res is Err,
        },
{
    let particle: Particle = get_particle(r, native)?;
    let particle: Particle = set_origin(particle, None, to.version);
    Ok(write_particle(out, &particle, native, to))
}

/// A packet whose last bytes are passed on as they stand.
pub open spec fn with_rest(step: Kept) -> Kept {
    (
        step.0,
        match step.1 {
            Some(Some((bytes, rest))) => Some(Some((bytes + rest, seq![]))),
            other => other,
        },
    )
}

/// What stands in front of the particle from 1.20.5 to 26.2: flags, the position,
/// the spread and the speed, and the count.
pub open spec fn level_head(version: Version) -> Shape {
    shape::three(
        Shape::Bool,
        if version >= version::V_1_21_4 {
            Shape::Bool
        } else {
            Shape::Empty
        },
        Shape::Fixed(44),
    )
}

fn new_level_head(version: Version) -> (res: Shape)
    ensures
        res == level_head(version),
{
    let second: Shape = if version >= version::V_1_21_4 {
        Shape::Bool
    } else {
        Shape::Empty
    };
    shape::three(Shape::Bool, second, Shape::Fixed(44))
}

/// A number that has 1.19's form or the form before it.
pub open spec fn take_old_id(s: Seq<u8>, version: Version) -> Option<(i32, Seq<u8>)> {
    if version >= version::V_1_19 {
        wire::take_var_int(s)
    } else {
        wire::take_i32(s)
    }
}

pub open spec fn enc_old_id(id: i32, version: Version) -> Seq<u8> {
    if version >= version::V_1_19 {
        wire::enc_var_int(id)
    } else {
        wire::enc_i32(id)
    }
}

/// The origin of a vibration, by the bytes of its position. Before 1.15 positions
/// are single floats and no particle has an origin.
pub open spec fn origin_in(position: Seq<u8>, version: Version) -> Option<i64> {
    if version >= version::V_1_15 {
        match wire::take_u64(position) {
            Some((x, s1)) => match wire::take_u64(s1) {
                Some((y, s2)) => match wire::take_u64(s2) {
                    Some((z, rest)) => origin_of(x, y, z),
                    None => None,
                },
                None => None,
            },
            None => None,
        }
    } else {
        None
    }
}

pub open spec fn position_size(version: Version) -> int {
    if version >= version::V_1_15 {
        24
    } else {
        12
    }
}

/// Whether a particle is the one that took its colour from the packet's speed
/// before 1.20.5.
pub open spec fn is_entity_effect(id: i32, cat: &Catalog) -> bool {
    0 <= id <= 0xffff && catalog::index_of(cat.particles@, wire::key("entity_effect")) == Some(id)
}

/// The speed and the data of a particle before 1.20.5: a potion's colour goes into
/// a speed of zero.
pub open spec fn with_colour(id: i32, speed: u32, data: Options, layout: Layout, cat: &Catalog) -> (u32, Options) {
    match data {
        Options::Color(colour) => if is_entity_effect(id, cat) && layout == Layout::Nothing {
            (
                if speed % 0x8000_0000 == 0 {
                    number::nearest(colour)
                } else {
                    speed
                },
                Options::Nothing,
            )
        } else {
            (speed, data)
        },
        _ => (speed, data),
    }
}

/// What stands in front of a particle's data before 1.20.5, behind the number: a
/// flag, the position, the spread, the speed and the count.
#[verifier::ext_equal]
pub struct OldHead {
    pub far: bool,
    pub position: Seq<u8>,
    pub spread: Seq<u8>,
    pub speed: u32,
    pub count: u32,
}

pub open spec fn take_old_head(s: Seq<u8>, version: Version) -> Option<(OldHead, Seq<u8>)> {
    match wire::take_bool(s) {
        Some((far, s1)) => match wire::take_bytes(s1, position_size(version)) {
            Some((position, s2)) => match wire::take_bytes(s2, 12) {
                Some((spread, s3)) => match wire::take_u32(s3) {
                    Some((speed, s4)) => match wire::take_u32(s4) {
                        Some((count, rest)) => Some((OldHead { far, position, spread, speed, count }, rest)),
                        None => None,
                    },
                    None => None,
                },
                None => None,
            },
            None => None,
        },
        None => None,
    }
}

pub open spec fn enc_old_head(head: OldHead) -> Seq<u8> {
    wire::enc_bool(head.far) + head.position + head.spread + wire::enc_u32(head.speed) + wire::enc_u32(head.count)
}

/// The packet before 1.20.5: the number leads, and the data is the rest.
#[verifier::opaque]
pub open spec fn old_level_written(
    rows: Seq<Row>,
    s: Seq<u8>,
    hashes: Seq<ComponentHash>,
    native: &Target,
    to: &Target,
) -> Kept {
    match take_old_id(s, to.version) {
        Some((id, t)) => match mapping::mapped(to.ids.particles@, id) {
            Some(mapped) => match take_old_head(t, to.version) {
                Some((head, u)) => match take_options(u, layout_of(id, version::V_26_3, native.cat), native) {
                    Ok((data, end)) => if end.len() != 0 {
                        (rows, None)
                    } else {
                        let layout = shown_layout(mapped as u32, to);
                        let particle = with_origin(
                            (ParticleView { id, data }),
                            origin_in(head.position, to.version),
                            to.version,
                        );
                        let (speed, shown) = with_colour(id, head.speed, particle.data, layout, native.cat);
                        let (kept, written) = options_kept(rows, shown, layout, hashes, native, to);
                        (
                            kept,
                            match written {
                                Some(bytes) => Some(
                                    Some(
                                        (
                                            enc_old_id(mapped, to.version) + enc_old_head(
                                                (OldHead { speed, ..head }),
                                            ) + bytes,
                                            seq![],
                                        ),
                                    ),
                                ),
                                None => Some(None),
                            },
                        )
                    },
                    Err(_) => (rows, None),
                },
                None => (rows, None),
            },
            None => (rows, Some(None)),
        },
        None => (rows, None),
    }
}

/// What becomes of a packet of particles. The particle stands in front in 26.3,
/// behind the count from 1.20.5 on, and before that its number leads and its data
/// is at the end.
pub open spec fn level_written(
    rows: Seq<Row>,
    s: Seq<u8>,
    hashes: Seq<ComponentHash>,
    native: &Target,
    to: &Target,
) -> Kept {
    if to.version >= version::V_26_3 {
        with_rest(packet_particle(rows, s, None, hashes, native, to))
    } else if to.version >= version::V_1_20_5 {
        match shape::recode(level_head(to.version), s, to.cat, to.version) {
            Some((head, t)) => behind(head, packet_particle(rows, t, None, hashes, native, to)),
            None => (rows, None),
        }
    } else {
        old_level_written(rows, s, hashes, native, to)
    }
}

/// Why a packet before 1.20.5 is refused, where it is: for its data, or for the bytes
/// behind that.
pub open spec fn old_level_refusal(s: Seq<u8>, native: &Target, to: &Target) -> TranslateError {
    match take_old_id(s, to.version) {
        Some((id, t)) => match take_old_head(t, to.version) {
            Some((head, u)) => match take_options(u, layout_of(id, version::V_26_3, native.cat), native) {
                Ok((data, end)) => TranslateError::TrailingBytes(end.len() as usize),
                Err(error) => error,
            },
            None => TranslateError::Malformed,
        },
        None => TranslateError::Malformed,
    }
}

/// Why a packet of particles is refused, where it is: from 1.20.5 on only because it
/// cannot be read.
pub open spec fn level_refusal(s: Seq<u8>, native: &Target, to: &Target) -> TranslateError {
    if to.version >= version::V_1_20_5 {
        TranslateError::Malformed
    } else {
        old_level_refusal(s, native, to)
    }
}

/// Whether a packet function gave what was wanted; `None` drops the packet.
pub open spec fn handled<E>(
    res: Result<Option<Vec<u8>>, E>,
    before: UserConnection,
    after: UserConnection,
    end: Seq<u8>,
    wanted: Kept,
) -> bool {
    &&& after.backups@ == wanted.0
    &&& item_backup::same_but_backups(after, before)
    &&& match wanted.1 {
        Some(Some((bytes, rest))) => res is Ok && res->Ok_0 is Some && res->Ok_0.unwrap()@ == bytes && end == rest,
        Some(None) => res is Ok && res->Ok_0 is None,
        None => res is Err,
    }
}

/// The start of an old packet.
struct OldStart {
    far: bool,
    position: Vec<u8>,
    spread: Vec<u8>,
    speed: u32,
    count: u32,
}

impl View for OldStart {
    type V = OldHead;

    closed spec fn view(&self) -> OldHead {
        OldHead {
            far: self.far,
            position: self.position@,
            spread: self.spread@,
            speed: self.speed,
            count: self.count,
        }
    }
}

fn read_old_start(r: &mut &[u8], version: Version) -> (res: Result<OldStart, ReadingError>)
    ensures
        match take_old_head(old(r)@, version) {
            Some((head, rest)) => res is Ok && res->Ok_0@ == head && final(r)@ == rest,
            None => res is Err,
        },
{
    let far: bool = wire::get_bool(r)?;
    let size: usize = if version >= version::V_1_15 { 24 } else { 12 };
    let position: &[u8] = wire::get_bytes(r, size)?;
    let spread: &[u8] = wire::get_bytes(r, 12)?;
    let speed: u32 = wire::get_u32(r)?;
    let count: u32 = wire::get_u32(r)?;
    Ok(OldStart { far, position: slice_to_vec(position), spread: slice_to_vec(spread), speed, count })
}

fn write_old_start(out: &mut Vec<u8>, head: &OldStart)
    ensures
        final(out)@ == old(out)@ + enc_old_head(head@),
{
    let ghost before = out@;
    wire::write_bool(out, head.far);
    wire::write_bytes(out, head.position.as_slice());
    wire::write_bytes(out, head.spread.as_slice());
    wire::write_u32(out, head.speed);
    wire::write_u32(out, head.count);
    assert(out@ =~= before + enc_old_head(head@));
}

fn find_origin(position: &[u8], version: Version) -> (res: Option<i64>)
    ensures
        res == origin_in(position@, version),
{
    if version < version::V_1_15 {
        return None;
    }
    let mut r: &[u8] = position;
    match wire::get_u64(&mut r) {
        Ok(x) => match wire::get_u64(&mut r) {
            Ok(y) => match wire::get_u64(&mut r) {
                Ok(z) => vibration_origin(x, y, z),
                Err(_) => None,
            },
            Err(_) => None,
        },
        Err(_) => None,
    }
}

pub fn find_entity_effect(id: i32, cat: &Catalog) -> (res: bool)
    ensures
        res == is_entity_effect(id, cat),
{
    0 <= id && id <= 0xffff && match catalog::find_name(&cat.particles, "entity_effect".as_bytes()) {
        Some(found) => found == id,
        None => false,
    }
}

fn move_colour(id: i32, speed: u32, data: ParticleData, layout: Layout, cat: &Catalog) -> (res: (u32, ParticleData))
    ensures
        (res.0, res.1@) == with_colour(id, speed, data@, layout, cat),
{
    match data {
        ParticleData::Color(colour) => {
            if find_entity_effect(id, cat) && layout == Layout::Nothing {
                let shown: u32 = if speed % 0x8000_0000 == 0 {
                    number::bits_from_int(colour)
                } else {
                    speed
                };
                (shown, ParticleData::Nothing)
            } else {
                (speed, ParticleData::Color(colour))
            }
        },
        other => (speed, other),
    }
}

fn get_old_id(r: &mut &[u8], version: Version) -> (res: Result<i32, ReadingError>)
    ensures
        match take_old_id(old(r)@, version) {
            Some((id, rest)) => res == Ok::<i32, ReadingError>(id) && final(r)@ == rest,
            None => res is Err,
        },
{
    if version >= version::V_1_19 {
        wire::get_var_int(r)
    } else {
        wire::get_i32(r)
    }
}

fn old_level_particles(
    connection: &mut UserConnection,
    r: &mut &[u8],
    hashes: &Vec<ComponentHash>,
    native: &Target,
    to: &Target,
) -> (res: Result<Option<Vec<u8>>, TranslateError>)
    ensures
        handled(
            res,
            *old(connection),
            *final(connection),
            final(r)@,
            old_level_written(old(connection).backups@, old(r)@, hashes@, native, to),
        ),
        res matches Err(error) ==> error == old_level_refusal(old(r)@, native, to),
{
    reveal(old_level_written);
    let id: i32 = wire::or_malformed(get_old_id(r, to.version))?;
    let mapped: i32 = match mapped_id(id, to.ids) {
        Some(mapped) => mapped,
        None => {
            return Ok(None);
        },
    };
    proof {
        mapping::lemma_mapped_is_natural(to.ids.particles@, id);
    }
    let mut start: OldStart = wire::or_malformed(read_old_start(r, to.version))?;
    let data: ParticleData = read_particle_data(r, id, native)?;
    if r.len() != 0 {
        return Err(TranslateError::TrailingBytes(r.len()));
    }
    assert(r@ =~= seq![]);
    let layout: Layout = mapped_shape(mapped as u32, to);
    let origin: Option<i64> = find_origin(start.position.as_slice(), to.version);
    let particle: Particle = set_origin(Particle { id, data }, origin, to.version);
    let (speed, shown): (u32, ParticleData) = move_colour(id, start.speed, particle.data, layout, native.cat);
    let ghost head = start@;
    start.speed = speed;
    assert(start@ == (OldHead { speed, ..head }));
    match write_data_with_connection(&shown, layout, hashes, native, to, connection) {
        Some(bytes) => {
            let mut out: Vec<u8> = Vec::new();
            if to.version >= version::V_1_19 {
                wire::write_var_int(&mut out, mapped);
            } else {
                wire::write_i32(&mut out, mapped);
            }
            assert(out@ =~= enc_old_id(mapped, to.version));
            write_old_start(&mut out, &start);
            wire::write_bytes(&mut out, bytes.as_slice());
            Ok(Some(out))
        },
        None => Ok(None),
    }
}

/// Translates a packet of particles. `None` drops it: the client has nothing to
/// show them as.
pub fn level_particles(
    connection: &mut UserConnection,
    r: &mut &[u8],
    hashes: &Vec<ComponentHash>,
    native: &Target,
    to: &Target,
) -> (res: Result<Option<Vec<u8>>, TranslateError>)
    ensures
        handled(
            res,
            *old(connection),
            *final(connection),
            final(r)@,
            level_written(old(connection).backups@, old(r)@, hashes@, native, to),
        ),
        res matches Err(error) ==> error == level_refusal(old(r)@, native, to),
{
    if to.version < version::V_1_20_5 {
        return old_level_particles(connection, r, hashes, native, to);
    }
    let mut out: Vec<u8> = Vec::new();
    if to.version < version::V_26_3 {
        wire::or_malformed(shape::rewrite(&new_level_head(to.version), r, &mut out, to.cat, to.version))?;
    }
    let ghost head = out@;
    if !wire::or_malformed(rewrite_particle_with_origin(connection, r, &mut out, None, hashes, native, to))? {
        return Ok(None);
    }
    if to.version >= version::V_26_3 {
        take_rest(r, &mut out);
        proof {
            let wanted = packet_particle(old(connection).backups@, old(r)@, None, hashes@, native, to);
            let (bytes, rest) = wanted.1.unwrap().unwrap();
            assert(out@ =~= bytes + rest);
        }
    } else {
        proof {
            let (front, rest) = shape::recode(level_head(to.version), old(r)@, to.cat, to.version).unwrap();
            assert(head =~= front);
        }
    }
    Ok(Some(out))
}

/// Passes on what is left.
fn take_rest(r: &mut &[u8], out: &mut Vec<u8>)
    ensures
        final(out)@ == old(out)@ + old(r)@,
        final(r)@ == Seq::<u8>::empty(),
{
    let length: usize = r.len();
    let (all, end): (&[u8], &[u8]) = r.split_at(length);
    wire::write_bytes(out, all);
    assert(all@ =~= r@);
    *r = end;
    assert(r@ =~= Seq::<u8>::empty());
}

/// Two steps, one behind the other.
pub open spec fn followed(first: Kept, next: spec_fn(Seq<Row>, Seq<u8>) -> Kept) -> Kept {
    match first.1 {
        Some(Some((bytes, rest))) => behind(bytes, next(first.0, rest)),
        _ => first,
    }
}

/// A step that knows nothing of the connection.
pub open spec fn recoded(rows: Seq<Row>, shape: Shape, s: Seq<u8>, to: &Target) -> Kept {
    match shape::recode(shape, s, to.cat, to.version) {
        Some((bytes, rest)) => (rows, Some(Some((bytes, rest)))),
        None => (rows, None),
    }
}

/// The weight and the speeds behind each particle of a broken block.
#[verifier::allow_in_spec]
pub fn block_particle_tail() -> Shape
    returns
        (shape::pair(Shape::Fixed(8), Shape::VarInt)),
{
    shape::pair(Shape::Fixed(8), Shape::VarInt)
}

/// The particles of broken blocks.
pub open spec fn block_particles(
    n: nat,
    rows: Seq<Row>,
    s: Seq<u8>,
    hashes: Seq<ComponentHash>,
    native: &Target,
    to: &Target,
) -> Kept
    decreases n,
{
    if n == 0 {
        (rows, Some(Some((seq![], s))))
    } else {
        let first = packet_particle(rows, s, None, hashes, native, to);
        match first.1 {
            Some(Some((head, t))) => match shape::recode(block_particle_tail(), t, to.cat, to.version) {
                Some((tail, u)) => behind(
                    head + tail,
                    block_particles((n - 1) as nat, first.0, u, hashes, native, to),
                ),
                None => (first.0, None),
            },
            _ => first,
        }
    }
}

/// The end of an explosion from 1.21.2 on.
pub open spec fn explosion_end(
    rows: Seq<Row>,
    s: Seq<u8>,
    hashes: Seq<ComponentHash>,
    native: &Target,
    to: &Target,
) -> Kept {
    if to.version >= version::V_1_21_9 {
        match wire::take_var_int(s) {
            Some((n, t)) => behind(
                wire::enc_var_int(n),
                with_rest(block_particles(shape::times(n), rows, t, hashes, native, to)),
            ),
            None => (rows, None),
        }
    } else {
        with_rest((rows, Some(Some((seq![], s)))))
    }
}

/// What stands in front of an explosion's particle from 1.21.2 on: the place, the
/// radius and the blocks, and how the player is pushed.
pub open spec fn explosion_head(version: Version) -> Shape {
    shape::three(
        Shape::Fixed(24),
        if version >= version::V_1_21_9 {
            Shape::Fixed(8)
        } else {
            Shape::Empty
        },
        shape::opt(Shape::Fixed(24)),
    )
}

fn new_explosion_head(version: Version) -> (res: Shape)
    ensures
        res == explosion_head(version),
{
    let second: Shape = if version >= version::V_1_21_9 {
        Shape::Fixed(8)
    } else {
        Shape::Empty
    };
    shape::three(Shape::Fixed(24), second, shape::opt(Shape::Fixed(24)))
}

/// What stands in front of the particles before 1.21.2: the place and the power,
/// the blocks, three bytes each, and how the player is pushed.
pub open spec fn take_old_explosion(s: Seq<u8>, to: &Target) -> Option<(Seq<u8>, Seq<u8>)> {
    let start: int = if to.version >= version::V_1_19_3 {
        28
    } else {
        16
    };
    if to.version >= version::V_1_17 {
        shape::recode(
            shape::three(Shape::Fixed(start as u8), shape::repeat(Shape::Fixed(3)), Shape::Fixed(12)),
            s,
            to.cat,
            to.version,
        )
    } else {
        match wire::take_bytes(s, start) {
            Some((place, t)) => match wire::take_i32(t) {
                Some((n, u)) => match wire::take_bytes(u, 3 * (shape::times(n) as int) + 12) {
                    Some((end, rest)) => Some((place + wire::enc_i32(n) + end, rest)),
                    None => None,
                },
                None => None,
            },
            None => None,
        }
    }
}

/// The particles and the sound of an explosion from 1.20.3 on, before 1.21.2.
pub open spec fn old_explosion_shown(
    rows: Seq<Row>,
    s: Seq<u8>,
    hashes: Seq<ComponentHash>,
    native: &Target,
    to: &Target,
) -> Kept {
    followed(
        recoded(rows, Shape::VarInt, s, to),
        |rows: Seq<Row>, s: Seq<u8>|
            followed(
                packet_particle(rows, s, None, hashes, native, to),
                |rows: Seq<Row>, s: Seq<u8>|
                    followed(
                        packet_particle(rows, s, None, hashes, native, to),
                        |rows: Seq<Row>, s: Seq<u8>|
                            if to.version >= version::V_1_20_5 {
                                with_rest((rows, sound::holder_written(s, to)))
                            } else {
                                with_rest((rows, Some(Some((seq![], s)))))
                            },
                    ),
            ),
    )
}

/// What becomes of an explosion.
pub open spec fn explosion_written(
    rows: Seq<Row>,
    s: Seq<u8>,
    hashes: Seq<ComponentHash>,
    native: &Target,
    to: &Target,
) -> Kept {
    if to.version >= version::V_1_21_2 {
        followed(
            recoded(rows, explosion_head(to.version), s, to),
            |rows: Seq<Row>, s: Seq<u8>|
                followed(
                    packet_particle(rows, s, None, hashes, native, to),
                    |rows: Seq<Row>, s: Seq<u8>|
                        followed(
                            (rows, sound::holder_written(s, to)),
                            |rows: Seq<Row>, s: Seq<u8>| explosion_end(rows, s, hashes, native, to),
                        ),
                ),
        )
    } else {
        match take_old_explosion(s, to) {
            Some((head, t)) => behind(
                head,
                if to.version >= version::V_1_20_3 {
                    old_explosion_shown(rows, t, hashes, native, to)
                } else {
                    with_rest((rows, Some(Some((seq![], t)))))
                },
            ),
            None => (rows, None),
        }
    }
}

/// Translates the particles of broken blocks.
#[verifier::loop_isolation(false)]
fn rewrite_block_particles(
    n: i32,
    connection: &mut UserConnection,
    r: &mut &[u8],
    out: &mut Vec<u8>,
    hashes: &Vec<ComponentHash>,
    native: &Target,
    to: &Target,
) -> (res: Result<bool, ReadingError>)
    ensures
        did(
            res,
            (*old(connection), old(out)@),
            (*final(connection), final(out)@, final(r)@),
            block_particles(shape::times(n), old(connection).backups@, old(r)@, hashes@, native, to),
        ),
{
    let ghost before = out@;
    let ghost wanted = block_particles(shape::times(n), connection.backups@, r@, hashes@, native, to);
    let ghost mut written: Seq<u8> = seq![];
    let mut left: i32 = n;
    proof {
        lemma_behind_nothing(wanted);
        assert(out@ =~= before + written);
    }
    while left > 0
        invariant
            item_backup::same_but_backups(*connection, *old(connection)),
            out@ == before + written,
            wanted == behind(
                written,
                block_particles(shape::times(left), connection.backups@, r@, hashes@, native, to),
            ),
        decreases left,
    {
        let ghost rows = connection.backups@;
        let ghost first = packet_particle(rows, r@, None, hashes@, native, to);
        if !rewrite_particle_with_origin(connection, r, out, None, hashes, native, to)? {
            return Ok(false);
        }
        let ghost tail = shape::recode(block_particle_tail(), r@, to.cat, to.version);
        shape::rewrite(&block_particle_tail(), r, out, to.cat, to.version)?;
        proof {
            let head = first.1.unwrap().unwrap().0;
            let more = tail.unwrap().0;
            lemma_behind_twice(
                written,
                head + more,
                block_particles(shape::times((left - 1) as i32), connection.backups@, r@, hashes@, native, to),
            );
            assert(out@ =~= before + (written + (head + more)));
            written = written + (head + more);
        }
        left = left - 1;
    }
    proof {
        assert(wanted == (connection.backups@, Some(Some((written + Seq::<u8>::empty(), r@)))));
        assert(written + Seq::<u8>::empty() =~= written);
    }
    Ok(true)
}

proof fn lemma_behind_nothing(step: Kept)
    ensures
        behind(seq![], step) == step,
{
    if let Some(Some((bytes, rest))) = step.1 {
        assert(Seq::<u8>::empty() + bytes =~= bytes);
    }
}

proof fn lemma_behind_twice(first: Seq<u8>, second: Seq<u8>, step: Kept)
    ensures
        behind(first, behind(second, step)) == behind(first + second, step),
{
    if let Some(Some((bytes, rest))) = step.1 {
        assert(first + (second + bytes) =~= (first + second) + bytes);
    }
}

fn rewrite_explosion_end(
    connection: &mut UserConnection,
    r: &mut &[u8],
    out: &mut Vec<u8>,
    hashes: &Vec<ComponentHash>,
    native: &Target,
    to: &Target,
) -> (res: Result<bool, ReadingError>)
    ensures
        did(
            res,
            (*old(connection), old(out)@),
            (*final(connection), final(out)@, final(r)@),
            explosion_end(old(connection).backups@, old(r)@, hashes@, native, to),
        ),
{
    let ghost before = out@;
    if to.version < version::V_1_21_9 {
        take_rest(r, out);
        assert(Seq::<u8>::empty() + old(r)@ =~= old(r)@);
        return Ok(true);
    }
    let n: i32 = wire::get_var_int(r)?;
    wire::write_var_int(out, n);
    let ghost blocks = block_particles(shape::times(n), connection.backups@, r@, hashes@, native, to);
    if !rewrite_block_particles(n, connection, r, out, hashes, native, to)? {
        return Ok(false);
    }
    take_rest(r, out);
    proof {
        let (bytes, rest) = blocks.1.unwrap().unwrap();
        assert(out@ =~= before + (wire::enc_var_int(n) + (bytes + rest)));
    }
    Ok(true)
}

fn rewrite_old_explosion(r: &mut &[u8], out: &mut Vec<u8>, to: &Target) -> (res: Result<(), ReadingError>)
    ensures
        match take_old_explosion(old(r)@, to) {
            Some((bytes, rest)) => res is Ok && final(out)@ == old(out)@ + bytes && final(r)@ == rest,
            None => res is Err,
        },
{
    let ghost before = out@;
    let start: u8 = if to.version >= version::V_1_19_3 { 28 } else { 16 };
    if to.version >= version::V_1_17 {
        let head: Shape = shape::three(Shape::Fixed(start), shape::repeat(Shape::Fixed(3)), Shape::Fixed(12));
        return shape::rewrite(&head, r, out, to.cat, to.version);
    }
    let place: &[u8] = wire::get_bytes(r, start as usize)?;
    let n: i32 = wire::get_i32(r)?;
    let blocks: u64 = if n > 0 { n as u64 } else { 0 };
    let length: u64 = 3 * blocks + 12;
    if length > r.len() as u64 {
        return Err(ReadingError::Malformed);
    }
    let end: &[u8] = wire::get_bytes(r, length as usize)?;
    wire::write_bytes(out, place);
    wire::write_i32(out, n);
    wire::write_bytes(out, end);
    assert(out@ =~= before + (place@ + wire::enc_i32(n) + end@));
    Ok(())
}

fn rewrite_old_explosion_shown(
    connection: &mut UserConnection,
    r: &mut &[u8],
    out: &mut Vec<u8>,
    hashes: &Vec<ComponentHash>,
    native: &Target,
    to: &Target,
) -> (res: Result<bool, ReadingError>)
    ensures
        did(
            res,
            (*old(connection), old(out)@),
            (*final(connection), final(out)@, final(r)@),
            old_explosion_shown(old(connection).backups@, old(r)@, hashes@, native, to),
        ),
{
    let ghost before = out@;
    let ghost kind = shape::recode(Shape::VarInt, r@, to.cat, to.version);
    shape::rewrite(&Shape::VarInt, r, out, to.cat, to.version)?;
    let ghost small = packet_particle(connection.backups@, r@, None, hashes@, native, to);
    if !rewrite_particle_with_origin(connection, r, out, None, hashes, native, to)? {
        return Ok(false);
    }
    let ghost large = packet_particle(connection.backups@, r@, None, hashes@, native, to);
    if !rewrite_particle_with_origin(connection, r, out, None, hashes, native, to)? {
        return Ok(false);
    }
    let ghost sounds = if to.version >= version::V_1_20_5 {
        sound::holder_written(r@, to)
    } else {
        Some(Some((seq![], r@)))
    };
    if to.version >= version::V_1_20_5 {
        if !sound::rewrite_holder(r, out, to)? {
            return Ok(false);
        }
    }
    take_rest(r, out);
    proof {
        let (a, _) = kind.unwrap();
        let (b, _) = small.1.unwrap().unwrap();
        let (c, _) = large.1.unwrap().unwrap();
        let (d, rest) = sounds.unwrap().unwrap();
        assert(out@ =~= before + (a + (b + (c + (d + rest)))));
    }
    Ok(true)
}

/// Translates an explosion. `None` drops it: the client lacks its particle or its
/// sound.
pub fn explode(
    connection: &mut UserConnection,
    r: &mut &[u8],
    hashes: &Vec<ComponentHash>,
    native: &Target,
    to: &Target,
) -> (res: Result<Option<Vec<u8>>, ReadingError>)
    ensures
        handled(
            res,
            *old(connection),
            *final(connection),
            final(r)@,
            explosion_written(old(connection).backups@, old(r)@, hashes@, native, to),
        ),
{
    let mut out: Vec<u8> = Vec::new();
    if to.version < version::V_1_21_2 {
        rewrite_old_explosion(r, &mut out, to)?;
        let ghost head = out@;
        let ghost middle = r@;
        if to.version < version::V_1_20_3 {
            take_rest(r, &mut out);
            assert(out@ =~= head + (Seq::<u8>::empty() + middle));
        } else if !rewrite_old_explosion_shown(connection, r, &mut out, hashes, native, to)? {
            return Ok(None);
        }
        proof {
            assert(head =~= take_old_explosion(old(r)@, to).unwrap().0);
        }
        return Ok(Some(out));
    }
    let ghost head = shape::recode(explosion_head(to.version), r@, to.cat, to.version);
    shape::rewrite(&new_explosion_head(to.version), r, &mut out, to.cat, to.version)?;
    let ghost particle = packet_particle(connection.backups@, r@, None, hashes@, native, to);
    if !rewrite_particle_with_origin(connection, r, &mut out, None, hashes, native, to)? {
        return Ok(None);
    }
    let ghost heard = sound::holder_written(r@, to);
    if !sound::rewrite_holder(r, &mut out, to)? {
        return Ok(None);
    }
    let ghost end = explosion_end(connection.backups@, r@, hashes@, native, to);
    if !rewrite_explosion_end(connection, r, &mut out, hashes, native, to)? {
        return Ok(None);
    }
    proof {
        let (a, _) = head.unwrap();
        let (b, _) = particle.1.unwrap().unwrap();
        let (c, _) = heard.unwrap().unwrap();
        let (d, _) = end.1.unwrap().unwrap();
        assert(out@ =~= a + (b + (c + d)));
    }
    Ok(Some(out))
}

} // verus!
