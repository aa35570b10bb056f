//! What packets of particles say, byte by byte.
use vstd::prelude::*;
use crate::item_backup::ComponentHash;
use crate::item_backup::Row;
use crate::mapping;
use crate::number;
use crate::particle;
use crate::particle::Layout;
use crate::particle::Options;
use crate::particle_bytes;
use crate::shape;
use crate::target::Target;
use crate::version;
use crate::version::Version;
use crate::wire;
use crate::wire::TranslateError;

verus! {

proof fn lemma_front(front: Seq<u8>, rest: Seq<u8>)
    ensures
        (front + rest).take(front.len() as int) == front,
        (front + rest).skip(front.len() as int) == rest,
{
    assert((front + rest).take(front.len() as int) =~= front);
    assert((front + rest).skip(front.len() as int) =~= rest);
}

proof fn lemma_bool(value: bool, rest: Seq<u8>)
    ensures
        wire::take_bool(wire::enc_bool(value) + rest) == Some((value, rest)),
{
    let s = wire::enc_bool(value) + rest;
    assert(s.skip(1) =~= rest);
    assert(s[0] == wire::enc_bool(value)[0]);
}

/// A particle whose data is no stack goes to a client under the client's number, with its data
/// in the layout that the client has for that number.
proof fn lemma_particle(
    rows: Seq<Row>,
    id: i32,
    shown: i32,
    data: Seq<u8>,
    options: Options,
    written: Seq<u8>,
    rest: Seq<u8>,
    hashes: Seq<ComponentHash>,
    native: &Target,
    to: &Target,
)
    requires
        mapping::mapped(to.ids.particles@, id) == Some(shown),
        particle::take_options(data + rest, particle::layout_of(id, version::V_26_3, native.cat), native) == Ok::<
            (Options, Seq<u8>),
            TranslateError,
        >((options, rest)),
        !(options is Item),
        !(options is Vibration) || to.version >= version::V_1_19,
        particle::enc_options(options, particle::shown_layout(shown as u32, to), to) == Some(written),
    ensures
        particle::packet_particle(rows, wire::enc_var_int(id) + data + rest, None, hashes, native, to) == (
            rows,
            Some(Some((wire::enc_var_int(shown) + written, rest))),
        ),
{
    reveal(particle::options_kept);
    wire::two_pieces(wire::enc_var_int(id), data, rest);
    wire::var_int_round_trip(id, data + rest);
}

/// From 1.20.5 on a packet of particles has its flags, of which there are two from 1.21.4 on,
/// then 44 bytes for where, how far, how fast and how many, which are kept, and then the
/// particle under the client's number.
pub proof fn particles_keep_their_place(
    rows: Seq<Row>,
    far: bool,
    always: bool,
    place: Seq<u8>,
    id: i32,
    shown: i32,
    data: Seq<u8>,
    options: Options,
    written: Seq<u8>,
    hashes: Seq<ComponentHash>,
    native: &Target,
    to: &Target,
)
    requires
        version::V_1_20_5 <= to.version < version::V_26_3,
        place.len() == 44,
        mapping::mapped(to.ids.particles@, id) == Some(shown),
        particle::take_options(data + Seq::<u8>::empty(), particle::layout_of(id, version::V_26_3, native.cat), native)
            == Ok::<(Options, Seq<u8>), TranslateError>((options, Seq::<u8>::empty())),
        !(options is Item),
        particle::enc_options(options, particle::shown_layout(shown as u32, to), to) == Some(written),
    ensures
        ({
            let flags = if to.version >= version::V_1_21_4 {
                wire::enc_bool(far) + wire::enc_bool(always)
            } else {
                wire::enc_bool(far)
            };
            particle::level_written(
                rows,
                flags + place + (wire::enc_var_int(id) + data),
                hashes,
                native,
                to,
            ) == (rows, Some(Some((flags + place + (wire::enc_var_int(shown) + written), Seq::<u8>::empty()))))
        }),
{
    let flags = if to.version >= version::V_1_21_4 {
        wire::enc_bool(far) + wire::enc_bool(always)
    } else {
        wire::enc_bool(far)
    };
    let tail = wire::enc_var_int(id) + data;
    let none = Seq::<u8>::empty();
    wire::no_piece(tail);
    lemma_particle(rows, id, shown, data, options, written, none, hashes, native, to);
    lemma_level_head(far, always, place, tail, to);
}

#[verifier::spinoff_prover]
#[verifier::rlimit(60)]
proof fn lemma_level_head(far: bool, always: bool, place: Seq<u8>, tail: Seq<u8>, to: &Target)
    requires
        place.len() == 44,
    ensures
        ({
            let flags = if to.version >= version::V_1_21_4 {
                wire::enc_bool(far) + wire::enc_bool(always)
            } else {
                wire::enc_bool(far)
            };
            shape::recode(particle::level_head(to.version), flags + place + tail, to.cat, to.version) == Some(
                (flags + place, tail),
            )
        }),
{
    reveal_with_fuel(shape::recode, 4);
    let a = wire::enc_bool(far);
    let b = if to.version >= version::V_1_21_4 {
        wire::enc_bool(always)
    } else {
        seq![]
    };
    wire::no_piece(a);
    wire::no_piece(place);
    wire::no_piece(place + tail);
    wire::three_pieces(a, b, place, tail);
    wire::two_pieces(a, b, place);
    lemma_bool(far, b + (place + tail));
    lemma_bool(always, place + tail);
    lemma_front(place, tail);
}

// --- before 1.20.5 -----------------------------------------------------------------------------------------

/// What stands in front of the data before 1.20.5: the number, a flag, the position, the
/// spread, the speed and the count.
pub open spec fn old_packet(
    number: Seq<u8>,
    far: bool,
    position: Seq<u8>,
    spread: Seq<u8>,
    speed: u32,
    count: u32,
    data: Seq<u8>,
) -> Seq<u8> {
    number + (wire::enc_bool(far) + position + spread + wire::enc_u32(speed) + wire::enc_u32(count) + data)
}

proof fn lemma_old_head(far: bool, position: Seq<u8>, spread: Seq<u8>, speed: u32, count: u32, data: Seq<u8>, version: Version)
    requires
        version >= version::V_1_15,
        position.len() == 24,
        spread.len() == 12,
    ensures
        particle::take_old_head(
            wire::enc_bool(far) + position + spread + wire::enc_u32(speed) + wire::enc_u32(count) + data,
            version,
        ) == Some((particle::OldHead { far, position, spread, speed, count }, data)),
{
    let s4 = wire::enc_u32(count) + data;
    let s3 = wire::enc_u32(speed) + s4;
    wire::five_pieces(wire::enc_bool(far), position, spread, wire::enc_u32(speed), wire::enc_u32(count), data);
    lemma_bool(far, position + (spread + s3));
    lemma_front(position, spread + s3);
    lemma_front(spread, s3);
    wire::u32_round_trip(speed, s4);
    wire::u32_round_trip(count, data);
}

/// The number of a particle before 1.20.5: of variable length from 1.19 on, four bytes before.
pub open spec fn number_bytes(id: i32, version: Version) -> Seq<u8> {
    if version >= version::V_1_19 {
        wire::enc_var_int(id)
    } else {
        wire::enc_i32(id)
    }
}

/// Before 1.20.5 the number of a particle leads and is the client's own; where, how far, how
/// fast and how many stay, and the data at the end is in the client's layout.
pub proof fn old_particles_keep_their_place(
    rows: Seq<Row>,
    id: i32,
    shown: i32,
    far: bool,
    position: Seq<u8>,
    spread: Seq<u8>,
    speed: u32,
    count: u32,
    data: Seq<u8>,
    options: Options,
    written: Seq<u8>,
    hashes: Seq<ComponentHash>,
    native: &Target,
    to: &Target,
)
    requires
        version::V_1_15 <= to.version < version::V_1_20_5,
        position.len() == 24,
        spread.len() == 12,
        mapping::mapped(to.ids.particles@, id) == Some(shown),
        particle::take_options(data, particle::layout_of(id, version::V_26_3, native.cat), native) == Ok::<
            (Options, Seq<u8>),
            TranslateError,
        >((options, Seq::<u8>::empty())),
        !(options is Item || options is Color),
        !(options is Vibration) || to.version >= version::V_1_19,
        particle::enc_options(options, particle::shown_layout(shown as u32, to), to) == Some(written),
    ensures
        particle::level_written(
            rows,
            old_packet(number_bytes(id, to.version), far, position, spread, speed, count, data),
            hashes,
            native,
            to,
        ) == (
            rows,
            Some(
                Some(
                    (
                        old_packet(number_bytes(shown, to.version), far, position, spread, speed, count, written),
                        Seq::<u8>::empty(),
                    ),
                ),
            ),
        ),
{
    reveal(particle::old_level_written);
    reveal(particle::options_kept);
    let tail = wire::enc_bool(far) + position + spread + wire::enc_u32(speed) + wire::enc_u32(count) + data;
    lemma_old_head(far, position, spread, speed, count, data, to.version);
    wire::var_int_round_trip(id, tail);
    wire::i32_round_trip(id, tail);
    let head = wire::enc_bool(far) + position + spread + wire::enc_u32(speed) + wire::enc_u32(count);
    wire::two_pieces(number_bytes(shown, to.version), head, written);
}

/// Before 1.20.5 the particle of an effect has no data: its colour is the speed, where there
/// is none already.
#[verifier::spinoff_prover]
#[verifier::rlimit(60)]
pub proof fn colours_of_effects_become_speeds(
    rows: Seq<Row>,
    id: i32,
    shown: i32,
    far: bool,
    position: Seq<u8>,
    spread: Seq<u8>,
    speed: u32,
    count: u32,
    colour: i32,
    now: u32,
    hashes: Seq<ComponentHash>,
    native: &Target,
    to: &Target,
)
    requires
        version::V_1_15 <= to.version < version::V_1_20_5,
        position.len() == 24,
        spread.len() == 12,
        mapping::mapped(to.ids.particles@, id) == Some(shown),
        particle::layout_of(id, version::V_26_3, native.cat) == Layout::Color,
        particle::is_entity_effect(id, native.cat),
        particle::shown_layout(shown as u32, to) == Layout::Nothing,
        speed == 0 || speed == 0x8000_0000 ==> now == number::nearest(colour),
        speed != 0 && speed != 0x8000_0000 ==> now == speed,
    ensures
        particle::level_written(
            rows,
            old_packet(
                number_bytes(id, to.version),
                far,
                position,
                spread,
                speed,
                count,
                wire::enc_i32(colour),
            ),
            hashes,
            native,
            to,
        ) == (
            rows,
            Some(
                Some(
                    (
                        old_packet(
                            number_bytes(shown, to.version),
                            far,
                            position,
                            spread,
                            now,
                            count,
                            seq![],
                        ),
                        Seq::<u8>::empty(),
                    ),
                ),
            ),
        ),
{
    reveal(particle::old_level_written);
    reveal(particle::options_kept);
    let data = wire::enc_i32(colour);
    let none = Seq::<u8>::empty();
    wire::no_piece(data);
    particle_bytes::plain_data_is_kept(colour, 0, native, none);
    assert(particle::take_options(data, Layout::Color, native) == Ok::<(Options, Seq<u8>), TranslateError>(
        (Options::Color(colour), none),
    ));
    let tail = wire::enc_bool(far) + position + spread + wire::enc_u32(speed) + wire::enc_u32(count) + data;
    lemma_old_head(far, position, spread, speed, count, data, to.version);
    wire::var_int_round_trip(id, tail);
    wire::i32_round_trip(id, tail);
    assert((speed % 0x8000_0000 == 0) == (speed == 0 || speed == 0x8000_0000));
    let head = wire::enc_bool(far) + position + spread + wire::enc_u32(now) + wire::enc_u32(count);
    wire::two_pieces(number_bytes(shown, to.version), head, none);
}

} // verus!
