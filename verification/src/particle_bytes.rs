//! What the data of particles says, byte by byte.
use vstd::prelude::*;
use crate::catalog;
use crate::catalog::Catalog;
use crate::mapping;
use crate::number;
use crate::particle;
use crate::particle::Kind;
use crate::particle::Layout;
use crate::particle::Options;
use crate::particle::VibrationSource;
use crate::target::Target;
use crate::text;
use crate::version;
use crate::version::Version;
use crate::wire;
use crate::wire::TranslateError;

verus! {

// --- colours -----------------------------------------------------------------------------------------

/// A colour without its alpha.
pub open spec fn without_alpha(rgb: i32) -> i32 {
    (wire::bits_of_i32(rgb) % 0x100_0000) as i32
}

proof fn lemma_channel(byte: u8, rest: Seq<u8>)
    ensures
        particle::take_channel(wire::enc_u32(number::fraction(byte)) + rest) == Ok::<(u8, Seq<u8>), TranslateError>(
            (byte, rest),
        ),
{
    wire::u32_round_trip(number::fraction(byte), rest);
    number::channels_come_back(byte);
}

/// Three floats, one behind the other.
pub open spec fn three_floats(red: u32, green: u32, blue: u32) -> Seq<u8> {
    wire::enc_u32(red) + wire::enc_u32(green) + wire::enc_u32(blue)
}

/// Three floats are a colour: red in the highest byte, blue in the lowest.
pub proof fn three_floats_are_a_colour(red: u8, green: u8, blue: u8, rest: Seq<u8>)
    ensures
        particle::take_rgb(
            three_floats(number::fraction(red), number::fraction(green), number::fraction(blue)) + rest,
        ) == Ok::<(i32, Seq<u8>), TranslateError>(((red * 0x1_0000 + green * 0x100 + blue) as i32, rest)),
{
    let r = wire::enc_u32(number::fraction(red));
    let g = wire::enc_u32(number::fraction(green));
    let b = wire::enc_u32(number::fraction(blue));
    wire::three_pieces(r, g, b, rest);
    lemma_channel(red, g + (b + rest));
    lemma_channel(green, b + rest);
    lemma_channel(blue, rest);
}

#[verifier::spinoff_prover]
proof fn lemma_bytes(bits: u32)
    ensures
        ((bits / 0x1_0000 % 0x100) as u8) * 0x1_0000 + ((bits / 0x100 % 0x100) as u8) * 0x100 + ((bits
            % 0x100) as u8) == bits % 0x100_0000,
{
    assert((bits / 0x1_0000 % 0x100) * 0x1_0000 + (bits / 0x100 % 0x100) * 0x100 + bits % 0x100 == bits % 0x100_0000)
        by (bit_vector);
}

/// A colour that was written as three floats reads back, but for its alpha.
pub proof fn colours_of_floats_read_back(rgb: i32, rest: Seq<u8>)
    ensures
        particle::take_rgb(particle::enc_rgb(rgb) + rest) == Ok::<(i32, Seq<u8>), TranslateError>(
            (without_alpha(rgb), rest),
        ),
{
    let bits = wire::bits_of_i32(rgb);
    three_floats_are_a_colour(
        (bits / 0x1_0000 % 0x100) as u8,
        (bits / 0x100 % 0x100) as u8,
        (bits % 0x100) as u8,
        rest,
    );
    lemma_bytes(bits);
}

/// Red stands before green, and green before blue: each as the float that reads back as
/// its byte.
pub proof fn colours_begin_with_red(red: u8, green: u8, blue: u8)
    ensures
        particle::enc_rgb((red * 0x1_0000 + green * 0x100 + blue) as i32) == wire::enc_u32(number::fraction(red))
            + wire::enc_u32(number::fraction(green)) + wire::enc_u32(number::fraction(blue)),
{
    let rgb = red as int * 0x1_0000 + green as int * 0x100 + blue as int;
    let bits = wire::bits_of_i32(rgb as i32);
    assert(bits == rgb);
    assert((bits / 0x1_0000 % 0x100) as u8 == red);
    assert((bits / 0x100 % 0x100) as u8 == green);
    assert((bits % 0x100) as u8 == blue);
}

// --- reading back --------------------------------------------------------------------------------------

/// What a layout carries of data.
pub open spec fn carried(options: Options, layout: Layout) -> Options {
    match options {
        Options::Dust { rgb, scale } => if layout == Layout::DustFloats {
            Options::Dust { rgb: without_alpha(rgb), scale }
        } else {
            options
        },
        Options::Transition { from, to, scale } => if layout == Layout::TransitionRgb {
            options
        } else {
            Options::Transition { from: without_alpha(from), to: without_alpha(to), scale }
        },
        Options::Vibration { origin, source, ticks } => if layout == Layout::VibrationWithSource {
            Options::Vibration {
                origin,
                source: match source {
                    VibrationSource::Entity { id, y_offset } => VibrationSource::Entity { id, y_offset: 0 },
                    VibrationSource::Block(position) => source,
                },
                ticks,
            }
        } else {
            Options::Vibration { origin: None, source, ticks }
        },
        Options::Trail { x, y, z, color, duration } => if layout == Layout::Trail {
            Options::Trail { x, y, z, color, duration: 0 }
        } else {
            options
        },
        Options::Geyser { water_blocks, impulse } => if layout == Layout::Geyser {
            Options::Geyser { water_blocks, impulse: 0 }
        } else {
            options
        },
        _ => options,
    }
}

proof fn lemma_source_names()
    ensures
        vstd::utf8::valid_utf8(wire::key("minecraft:block")),
        vstd::utf8::valid_utf8(wire::key("minecraft:entity")),
        wire::key("minecraft:block").len() == 15,
        wire::key("minecraft:entity").len() == 16,
        text::ends(wire::key("minecraft:block"), wire::key(":block")),
        text::ends(wire::key("minecraft:entity"), wire::key(":entity")),
        !text::ends(wire::key("minecraft:entity"), wire::key(":block")),
{
    reveal_strlit("minecraft:block");
    reveal_strlit("minecraft:entity");
    reveal_strlit(":block");
    reveal_strlit(":entity");
    vstd::utf8::is_ascii_chars_encode_utf8("minecraft:block"@);
    vstd::utf8::is_ascii_chars_encode_utf8("minecraft:entity"@);
    vstd::utf8::is_ascii_chars_encode_utf8(":block"@);
    vstd::utf8::is_ascii_chars_encode_utf8(":entity"@);
    vstd::utf8::encode_utf8_valid_utf8("minecraft:block"@);
    vstd::utf8::encode_utf8_valid_utf8("minecraft:entity"@);
    let block = wire::key("minecraft:block");
    let entity = wire::key("minecraft:entity");
    assert(block.skip(9) =~= wire::key(":block"));
    assert(entity.skip(9) =~= wire::key(":entity"));
    assert(entity.skip(10)[0] != wire::key(":block")[0]);
}

proof fn lemma_i64(value: i64, rest: Seq<u8>)
    ensures
        wire::take_i64(wire::enc_i64(value) + rest) == Some((value, rest)),
{
    wire::u64_round_trip(wire::bits_of_i64(value), rest);
}

proof fn lemma_source(source: VibrationSource, named: bool, offset: bool, rest: Seq<u8>)
    ensures
        particle::take_source(particle::enc_source(source, named, offset) + rest, named, offset) == Ok::<
            (VibrationSource, Seq<u8>),
            TranslateError,
        >(
            (
                match source {
                    VibrationSource::Entity { id, y_offset } => VibrationSource::Entity {
                        id,
                        y_offset: if offset {
                            y_offset
                        } else {
                            0
                        },
                    },
                    VibrationSource::Block(position) => source,
                },
                rest,
            ),
        ),
{
    lemma_source_names();
    let s = particle::enc_source(source, named, offset) + rest;
    match source {
        VibrationSource::Block(position) => {
            let tail = wire::enc_i64(position) + rest;
            if named {
                wire::two_pieces(wire::enc_str(wire::key("minecraft:block")), wire::enc_i64(position), rest);
                wire::str_round_trip(wire::key("minecraft:block"), tail);
            } else {
                wire::two_pieces(wire::enc_var_int(0), wire::enc_i64(position), rest);
                wire::var_int_round_trip(0, tail);
            }
            lemma_i64(position, rest);
        },
        VibrationSource::Entity { id, y_offset } => {
            let height = if offset {
                wire::enc_u32(y_offset)
            } else {
                seq![]
            };
            let end = height + rest;
            wire::no_piece(rest);
            let tail = wire::enc_var_int(id) + end;
            if named {
                wire::three_pieces(wire::enc_str(wire::key("minecraft:entity")), wire::enc_var_int(id), height, rest);
                wire::str_round_trip(wire::key("minecraft:entity"), tail);
            } else {
                wire::three_pieces(wire::enc_var_int(1), wire::enc_var_int(id), height, rest);
                wire::var_int_round_trip(1, tail);
            }
            wire::var_int_round_trip(id, end);
            wire::u32_round_trip(y_offset, rest);
        },
    }
}

proof fn lemma_vibration(origin: Option<i64>, source: VibrationSource, ticks: i32, layout: Layout, to: &Target, rest: Seq<u8>)
    requires
        particle::enc_options(Options::Vibration { origin, source, ticks }, layout, to) is Some,
    ensures
        particle::take_vibration(
            particle::enc_options(Options::Vibration { origin, source, ticks }, layout, to).unwrap() + rest,
            layout,
        ) == Ok::<(Options, Seq<u8>), TranslateError>(
            (carried(Options::Vibration { origin, source, ticks }, layout), rest),
        ),
{
    let s = particle::enc_options(Options::Vibration { origin, source, ticks }, layout, to).unwrap() + rest;
    let old = layout == Layout::VibrationWithSource;
    let named = layout != Layout::VibrationTyped;
    let end = wire::enc_var_int(ticks) + rest;
    let tail = particle::enc_source(source, named, !old) + end;
    lemma_source(source, named, !old, end);
    wire::var_int_round_trip(ticks, rest);
    if old {
        wire::three_pieces(
            wire::enc_i64(origin.unwrap()),
            particle::enc_source(source, named, !old),
            wire::enc_var_int(ticks),
            rest,
        );
        lemma_i64(origin.unwrap(), tail);
    } else {
        wire::two_pieces(particle::enc_source(source, named, !old), wire::enc_var_int(ticks), rest);
    }
}

#[verifier::spinoff_prover]
proof fn lemma_transition(from: i32, to: i32, scale: u32, layout: Layout, target: &Target, rest: Seq<u8>)
    requires
        layout == Layout::TransitionRgb || layout == Layout::TransitionScaleLast || layout
            == Layout::TransitionScaleMid,
    ensures
        particle::enc_options(Options::Transition { from, to, scale }, layout, target) matches Some(bytes)
            && particle::take_options(bytes + rest, layout, target) == Ok::<(Options, Seq<u8>), TranslateError>(
            (carried(Options::Transition { from, to, scale }, layout), rest),
        ),
{
    reveal(particle::take_options);
    let s = particle::enc_options(Options::Transition { from, to, scale }, layout, target).unwrap() + rest;
    let end = wire::enc_u32(scale) + rest;
    wire::u32_round_trip(scale, rest);
    if layout == Layout::TransitionRgb {
        wire::three_pieces(wire::enc_i32(from), wire::enc_i32(to), wire::enc_u32(scale), rest);
        wire::i32_round_trip(from, wire::enc_i32(to) + end);
        wire::i32_round_trip(to, end);
    } else if layout == Layout::TransitionScaleLast {
        wire::three_pieces(particle::enc_rgb(from), particle::enc_rgb(to), wire::enc_u32(scale), rest);
        colours_of_floats_read_back(from, particle::enc_rgb(to) + end);
        colours_of_floats_read_back(to, end);
    } else {
        let tail = particle::enc_rgb(to) + rest;
        wire::three_pieces(particle::enc_rgb(from), wire::enc_u32(scale), particle::enc_rgb(to), rest);
        colours_of_floats_read_back(from, wire::enc_u32(scale) + tail);
        wire::u32_round_trip(scale, tail);
        colours_of_floats_read_back(to, rest);
    }
}

proof fn lemma_trail(x: u64, y: u64, z: u64, color: i32, duration: i32, layout: Layout, to: &Target, rest: Seq<u8>)
    requires
        layout == Layout::Trail || layout == Layout::TrailWithDuration,
    ensures
        particle::enc_options(Options::Trail { x, y, z, color, duration }, layout, to) matches Some(bytes)
            && particle::take_options(bytes + rest, layout, to) == Ok::<(Options, Seq<u8>), TranslateError>(
            (carried(Options::Trail { x, y, z, color, duration }, layout), rest),
        ),
{
    reveal(particle::take_options);
    let s = particle::enc_options(Options::Trail { x, y, z, color, duration }, layout, to).unwrap() + rest;
    let end = if layout == Layout::Trail {
        rest
    } else {
        wire::enc_var_int(duration) + rest
    };
    let s3 = wire::enc_i32(color) + end;
    let s2 = wire::enc_u64(z) + s3;
    let s1 = wire::enc_u64(y) + s2;
    wire::four_pieces(wire::enc_u64(x), wire::enc_u64(y), wire::enc_u64(z), wire::enc_i32(color), end);
    wire::two_pieces(particle::enc_trail(x, y, z, color), wire::enc_var_int(duration), rest);
    wire::u64_round_trip(x, s1);
    wire::u64_round_trip(y, s2);
    wire::u64_round_trip(z, s3);
    wire::i32_round_trip(color, end);
    wire::var_int_round_trip(duration, rest);
}

/// The data of a particle reads back as it was written, whatever stands behind it, but
/// for what its layout does not carry. The state of a block is renumbered when it is
/// written.
pub proof fn particle_data_reads_back(options: Options, layout: Layout, to: &Target, rest: Seq<u8>)
    requires
        !(options is Block),
    ensures
        particle::enc_options(options, layout, to) matches Some(bytes) ==> particle::take_options(
            bytes + rest,
            layout,
            to,
        ) == Ok::<(Options, Seq<u8>), TranslateError>((carried(options, layout), rest)),
{
    reveal(particle::take_options);
    if let Some(bytes) = particle::enc_options(options, layout, to) {
        let s = bytes + rest;
        match options {
            Options::Nothing => {
                wire::no_piece(rest);
            },
            Options::Dust { rgb, scale } => {
                let end = wire::enc_u32(scale) + rest;
                wire::u32_round_trip(scale, rest);
                if layout == Layout::DustRgb {
                    wire::two_pieces(wire::enc_i32(rgb), wire::enc_u32(scale), rest);
                    wire::i32_round_trip(rgb, end);
                } else {
                    wire::two_pieces(particle::enc_rgb(rgb), wire::enc_u32(scale), rest);
                    colours_of_floats_read_back(rgb, end);
                }
            },
            Options::Transition { from, to: target, scale } => {
                lemma_transition(from, target, scale, layout, to, rest);
            },
            Options::Vibration { origin, source, ticks } => {
                lemma_vibration(origin, source, ticks, layout, to, rest);
            },
            Options::Float(bits) => wire::u32_round_trip(bits, rest),
            Options::Delay(ticks) => wire::var_int_round_trip(ticks, rest),
            Options::Color(color) => wire::i32_round_trip(color, rest),
            Options::Trail { x, y, z, color, duration } => {
                lemma_trail(x, y, z, color, duration, layout, to, rest);
            },
            Options::Spell { color, power } => {
                wire::two_pieces(wire::enc_i32(color), wire::enc_u32(power), rest);
                wire::i32_round_trip(color, wire::enc_u32(power) + rest);
                wire::u32_round_trip(power, rest);
            },
            Options::Geyser { water_blocks, impulse } => {
                if layout == Layout::Geyser {
                    wire::i32_round_trip(water_blocks, rest);
                } else {
                    wire::two_pieces(wire::enc_i32(water_blocks), wire::enc_u32(impulse), rest);
                    wire::i32_round_trip(water_blocks, wire::enc_u32(impulse) + rest);
                    wire::u32_round_trip(impulse, rest);
                }
            },
            _ => {},
        }
    }
}

// --- field by field --------------------------------------------------------------------------------------

/// The server writes a transition as the colour that it starts from, the one that it ends
/// in, and the scale. A client gets the first colour first as well: packed, or as the floats
/// of its red, green and blue, with the scale behind both or, up to 1.20.3, between them.
pub proof fn transitions_start_from_their_first_colour(
    first: (u8, u8, u8),
    second: (u8, u8, u8),
    scale: u32,
    to: &Target,
    rest: Seq<u8>,
)
    ensures
        ({
            let start = (first.0 * 0x1_0000 + first.1 * 0x100 + first.2) as i32;
            let end = (second.0 * 0x1_0000 + second.1 * 0x100 + second.2) as i32;
            let packed = wire::enc_i32(start) + wire::enc_i32(end) + wire::enc_u32(scale);
            let options = Options::Transition { from: start, to: end, scale };
            let start_floats = three_floats(
                number::fraction(first.0),
                number::fraction(first.1),
                number::fraction(first.2),
            );
            let end_floats = three_floats(
                number::fraction(second.0),
                number::fraction(second.1),
                number::fraction(second.2),
            );
            &&& particle::take_options(packed + rest, Layout::TransitionRgb, to) == Ok::<
                (Options, Seq<u8>),
                TranslateError,
            >((options, rest))
            &&& particle::enc_options(options, Layout::TransitionRgb, to) == Some(packed)
            &&& particle::enc_options(options, Layout::TransitionScaleLast, to) == Some(
                start_floats + end_floats + wire::enc_u32(scale),
            )
            &&& particle::enc_options(options, Layout::TransitionScaleMid, to) == Some(
                start_floats + wire::enc_u32(scale) + end_floats,
            )
        }),
{
    let start = (first.0 * 0x1_0000 + first.1 * 0x100 + first.2) as i32;
    let end = (second.0 * 0x1_0000 + second.1 * 0x100 + second.2) as i32;
    lemma_transition(start, end, scale, Layout::TransitionRgb, to, rest);
    colours_begin_with_red(first.0, first.1, first.2);
    colours_begin_with_red(second.0, second.1, second.2);
}

/// The server writes dust as its colour and its scale, and so does a client read it, with
/// the colour packed or as the floats of its red, green and blue.
pub proof fn dust_has_its_colour_first(red: u8, green: u8, blue: u8, scale: u32, to: &Target, rest: Seq<u8>)
    ensures
        ({
            let rgb = (red * 0x1_0000 + green * 0x100 + blue) as i32;
            let packed = wire::enc_i32(rgb) + wire::enc_u32(scale);
            let options = Options::Dust { rgb, scale };
            &&& particle::take_options(packed + rest, Layout::DustRgb, to) == Ok::<(Options, Seq<u8>), TranslateError>(
                (options, rest),
            )
            &&& particle::enc_options(options, Layout::DustRgb, to) == Some(packed)
            &&& particle::enc_options(options, Layout::DustFloats, to) == Some(
                three_floats(number::fraction(red), number::fraction(green), number::fraction(blue)) + wire::enc_u32(
                    scale,
                ),
            )
        }),
{
    let rgb = (red * 0x1_0000 + green * 0x100 + blue) as i32;
    particle_data_reads_back(Options::Dust { rgb, scale }, Layout::DustRgb, to, rest);
    colours_begin_with_red(red, green, blue);
}

/// The server writes a trail as the place that it goes to, its colour and its time; a
/// client of 1.21.2 reads the same without the time.
pub proof fn trails_have_their_place_first(x: u64, y: u64, z: u64, color: i32, duration: i32, to: &Target, rest: Seq<u8>)
    ensures
        ({
            let short = wire::enc_u64(x) + wire::enc_u64(y) + wire::enc_u64(z) + wire::enc_i32(color);
            let options = Options::Trail { x, y, z, color, duration };
            &&& particle::take_options(short + wire::enc_var_int(duration) + rest, Layout::TrailWithDuration, to)
                == Ok::<(Options, Seq<u8>), TranslateError>((options, rest))
            &&& particle::enc_options(options, Layout::TrailWithDuration, to) == Some(
                short + wire::enc_var_int(duration),
            )
            &&& particle::enc_options(options, Layout::Trail, to) == Some(short)
        }),
{
    lemma_trail(x, y, z, color, duration, Layout::TrailWithDuration, to, rest);
}

/// The server writes a vibration as zero and a block's position, or one and an entity with
/// its height, and the time behind either. Up to 1.20.2 a client reads the name of what it
/// goes to in place of the number, and up to 1.18 an origin in front and no height.
pub proof fn vibrations_say_where_they_go(
    origin: i64,
    position: i64,
    id: i32,
    y_offset: u32,
    ticks: i32,
    to: &Target,
    rest: Seq<u8>,
)
    ensures
        ({
            let block = VibrationSource::Block(position);
            let entity = VibrationSource::Entity { id, y_offset };
            let end = wire::enc_var_int(ticks);
            let at_block = wire::enc_str(wire::key("minecraft:block")) + wire::enc_i64(position);
            let at_entity = wire::enc_str(wire::key("minecraft:entity")) + wire::enc_var_int(id);
            &&& particle::take_options(
                wire::enc_var_int(0) + wire::enc_i64(position) + end + rest,
                Layout::VibrationTyped,
                to,
            ) == Ok::<(Options, Seq<u8>), TranslateError>(
                (Options::Vibration { origin: None, source: block, ticks }, rest),
            )
            &&& particle::take_options(
                wire::enc_var_int(1) + wire::enc_var_int(id) + wire::enc_u32(y_offset) + end + rest,
                Layout::VibrationTyped,
                to,
            ) == Ok::<(Options, Seq<u8>), TranslateError>(
                (Options::Vibration { origin: None, source: entity, ticks }, rest),
            )
            &&& particle::enc_options(
                Options::Vibration { origin: None, source: block, ticks },
                Layout::VibrationTyped,
                to,
            ) == Some(wire::enc_var_int(0) + wire::enc_i64(position) + end)
            &&& particle::enc_options(
                Options::Vibration { origin: None, source: entity, ticks },
                Layout::VibrationTyped,
                to,
            ) == Some(wire::enc_var_int(1) + wire::enc_var_int(id) + wire::enc_u32(y_offset) + end)
            &&& particle::enc_options(
                Options::Vibration { origin: None, source: block, ticks },
                Layout::VibrationNamed,
                to,
            ) == Some(at_block + end)
            &&& particle::enc_options(
                Options::Vibration { origin: None, source: entity, ticks },
                Layout::VibrationNamed,
                to,
            ) == Some(at_entity + wire::enc_u32(y_offset) + end)
            &&& particle::enc_options(
                Options::Vibration { origin: Some(origin), source: block, ticks },
                Layout::VibrationWithSource,
                to,
            ) == Some(wire::enc_i64(origin) + at_block + end)
            &&& particle::enc_options(
                Options::Vibration { origin: Some(origin), source: entity, ticks },
                Layout::VibrationWithSource,
                to,
            ) == Some(wire::enc_i64(origin) + at_entity + end)
            &&& particle::enc_options(
                Options::Vibration { origin: None, source: entity, ticks },
                Layout::VibrationWithSource,
                to,
            ) is None
        }),
{
    let block = Options::Vibration { origin: None, source: VibrationSource::Block(position), ticks };
    let entity = Options::Vibration { origin: None, source: VibrationSource::Entity { id, y_offset }, ticks };
    particle_data_reads_back(block, Layout::VibrationTyped, to, rest);
    particle_data_reads_back(entity, Layout::VibrationTyped, to, rest);
    wire::no_piece(wire::enc_str(wire::key("minecraft:entity")) + wire::enc_var_int(id));
}

/// The server writes the colour of a spell before its power, and the water of a geyser
/// before its impulse; a geyser without a base has no impulse. Other data is one number.
pub proof fn plain_data_is_kept(number: i32, bits: u32, to: &Target, rest: Seq<u8>)
    ensures
        ({
            let both = wire::enc_i32(number) + wire::enc_u32(bits);
            &&& particle::take_options(both + rest, Layout::Spell, to) == Ok::<(Options, Seq<u8>), TranslateError>(
                (Options::Spell { color: number, power: bits }, rest),
            )
            &&& particle::take_options(both + rest, Layout::GeyserBase, to) == Ok::<
                (Options, Seq<u8>),
                TranslateError,
            >((Options::Geyser { water_blocks: number, impulse: bits }, rest))
            &&& particle::take_options(wire::enc_i32(number) + rest, Layout::Geyser, to) == Ok::<
                (Options, Seq<u8>),
                TranslateError,
            >((Options::Geyser { water_blocks: number, impulse: 0 }, rest))
            &&& particle::take_options(wire::enc_u32(bits) + rest, Layout::Float, to) == Ok::<
                (Options, Seq<u8>),
                TranslateError,
            >((Options::Float(bits), rest))
            &&& particle::take_options(wire::enc_var_int(number) + rest, Layout::Delay, to) == Ok::<
                (Options, Seq<u8>),
                TranslateError,
            >((Options::Delay(number), rest))
            &&& particle::take_options(wire::enc_i32(number) + rest, Layout::Color, to) == Ok::<
                (Options, Seq<u8>),
                TranslateError,
            >((Options::Color(number), rest))
            &&& particle::enc_options(Options::Spell { color: number, power: bits }, Layout::Spell, to) == Some(both)
            &&& particle::enc_options(
                Options::Geyser { water_blocks: number, impulse: bits },
                Layout::GeyserBase,
                to,
            ) == Some(both)
            &&& particle::enc_options(Options::Geyser { water_blocks: number, impulse: bits }, Layout::Geyser, to)
                == Some(wire::enc_i32(number))
            &&& particle::enc_options(Options::Float(bits), Layout::Float, to) == Some(wire::enc_u32(bits))
            &&& particle::enc_options(Options::Delay(number), Layout::Delay, to) == Some(wire::enc_var_int(number))
            &&& particle::enc_options(Options::Color(number), Layout::Color, to) == Some(wire::enc_i32(number))
        }),
{
    particle_data_reads_back(Options::Spell { color: number, power: bits }, Layout::Spell, to, rest);
    particle_data_reads_back(
        Options::Geyser { water_blocks: number, impulse: bits },
        Layout::GeyserBase,
        to,
        rest,
    );
    particle_data_reads_back(Options::Geyser { water_blocks: number, impulse: bits }, Layout::Geyser, to, rest);
    particle_data_reads_back(Options::Float(bits), Layout::Float, to, rest);
    particle_data_reads_back(Options::Delay(number), Layout::Delay, to, rest);
    particle_data_reads_back(Options::Color(number), Layout::Color, to, rest);
}

/// The state of a block goes to a client under the client's own number, and as air where
/// it has none.
pub proof fn blocks_are_renumbered(state: i32, to: &Target, rest: Seq<u8>)
    requires
        state >= 0,
    ensures
        particle::take_options(wire::enc_var_int(state) + rest, Layout::Block, to) == Ok::<
            (Options, Seq<u8>),
            TranslateError,
        >((Options::Block(state as u32), rest)),
        particle::enc_options(Options::Block(state as u32), Layout::Block, to) == Some(
            match mapping::mapped(to.ids.block_states@, state) {
                Some(shown) => wire::enc_var_int(shown),
                None => wire::enc_var_int(0),
            },
        ),
{
    reveal(particle::take_options);
    wire::var_int_round_trip(state, rest);
}

// --- what carries which data -------------------------------------------------------------------------------

/// A layout from a release on; nothing is carried before it.
pub open spec fn since(version: Version, first: Version, layout: Layout) -> Layout {
    if version >= first {
        layout
    } else {
        Layout::Nothing
    }
}

/// The names of particles differ.
proof fn lemma_names()
    ensures
        forall|a: Kind, b: Kind|
            #[trigger] particle::kind_name(a) == #[trigger] particle::kind_name(b) ==> a == b,
{
    reveal_strlit("item");
    reveal_strlit("block");
    reveal_strlit("block_marker");
    reveal_strlit("dust_pillar");
    reveal_strlit("falling_dust");
    reveal_strlit("block_crumble");
    reveal_strlit("dust");
    reveal_strlit("dust_color_transition");
    reveal_strlit("vibration");
    reveal_strlit("sculk_charge");
    reveal_strlit("shriek");
    reveal_strlit("entity_effect");
    reveal_strlit("trail");
    reveal_strlit("tinted_leaves");
    reveal_strlit("dragon_breath");
    reveal_strlit("effect");
    reveal_strlit("instant_effect");
    reveal_strlit("flash");
    reveal_strlit("geyser");
    reveal_strlit("geyser_base");
    reveal_strlit("geyser_poof");
    reveal_strlit("geyser_plume");
    vstd::utf8::is_ascii_chars_encode_utf8("item"@);
    vstd::utf8::is_ascii_chars_encode_utf8("block"@);
    vstd::utf8::is_ascii_chars_encode_utf8("block_marker"@);
    vstd::utf8::is_ascii_chars_encode_utf8("dust_pillar"@);
    vstd::utf8::is_ascii_chars_encode_utf8("falling_dust"@);
    vstd::utf8::is_ascii_chars_encode_utf8("block_crumble"@);
    vstd::utf8::is_ascii_chars_encode_utf8("dust"@);
    vstd::utf8::is_ascii_chars_encode_utf8("dust_color_transition"@);
    vstd::utf8::is_ascii_chars_encode_utf8("vibration"@);
    vstd::utf8::is_ascii_chars_encode_utf8("sculk_charge"@);
    vstd::utf8::is_ascii_chars_encode_utf8("shriek"@);
    vstd::utf8::is_ascii_chars_encode_utf8("entity_effect"@);
    vstd::utf8::is_ascii_chars_encode_utf8("trail"@);
    vstd::utf8::is_ascii_chars_encode_utf8("tinted_leaves"@);
    vstd::utf8::is_ascii_chars_encode_utf8("dragon_breath"@);
    vstd::utf8::is_ascii_chars_encode_utf8("effect"@);
    vstd::utf8::is_ascii_chars_encode_utf8("instant_effect"@);
    vstd::utf8::is_ascii_chars_encode_utf8("flash"@);
    vstd::utf8::is_ascii_chars_encode_utf8("geyser"@);
    vstd::utf8::is_ascii_chars_encode_utf8("geyser_base"@);
    vstd::utf8::is_ascii_chars_encode_utf8("geyser_poof"@);
    vstd::utf8::is_ascii_chars_encode_utf8("geyser_plume"@);
    assert(wire::key("item").len() == 4 && wire::key("item")[0] == 105);
    assert(wire::key("block").len() == 5 && wire::key("block")[0] == 98);
    assert(wire::key("block_marker").len() == 12 && wire::key("block_marker")[0] == 98);
    assert(wire::key("dust_pillar").len() == 11 && wire::key("dust_pillar")[0] == 100);
    assert(wire::key("falling_dust").len() == 12 && wire::key("falling_dust")[0] == 102);
    assert(wire::key("block_crumble").len() == 13 && wire::key("block_crumble")[0] == 98);
    assert(wire::key("dust").len() == 4 && wire::key("dust")[0] == 100);
    assert(wire::key("dust_color_transition").len() == 21 && wire::key("dust_color_transition")[0] == 100);
    assert(wire::key("vibration").len() == 9 && wire::key("vibration")[0] == 118);
    assert(wire::key("sculk_charge").len() == 12 && wire::key("sculk_charge")[0] == 115);
    assert(wire::key("shriek").len() == 6 && wire::key("shriek")[0] == 115);
    assert(wire::key("entity_effect").len() == 13 && wire::key("entity_effect")[0] == 101);
    assert(wire::key("trail").len() == 5 && wire::key("trail")[0] == 116);
    assert(wire::key("tinted_leaves").len() == 13 && wire::key("tinted_leaves")[0] == 116);
    assert(wire::key("dragon_breath").len() == 13 && wire::key("dragon_breath")[0] == 100);
    assert(wire::key("effect").len() == 6 && wire::key("effect")[0] == 101);
    assert(wire::key("instant_effect").len() == 14 && wire::key("instant_effect")[0] == 105);
    assert(wire::key("flash").len() == 5 && wire::key("flash")[0] == 102);
    assert(wire::key("geyser").len() == 6 && wire::key("geyser")[0] == 103);
    assert(wire::key("geyser_base").len() == 11 && wire::key("geyser_base")[0] == 103);
    assert(wire::key("geyser_poof").len() == 11 && wire::key("geyser_poof")[0] == 103);
    assert(wire::key("geyser_plume").len() == 12 && wire::key("geyser_plume")[0] == 103);
    assert(wire::key("geyser_base")[7] == 98);
    assert(wire::key("geyser_poof")[7] == 112);
}

proof fn lemma_named(kinds: Seq<Kind>, kind: Kind, version: Version, i: int)
    requires
        0 <= i <= kinds.len(),
    ensures
        particle::named_from(kinds, particle::kind_name(kind), version, i) == (if exists|j: int|
            i <= j < kinds.len() && kinds[j] == kind {
            particle::layout_for(kind, version)
        } else {
            Layout::Nothing
        }),
    decreases kinds.len() - i,
{
    lemma_names();
    if i < kinds.len() {
        lemma_named(kinds, kind, version, i + 1);
        assert(particle::kind_name(kinds[i]) == particle::kind_name(kind) ==> kinds[i] == kind);
        if kinds[i] != kind {
            assert(forall|j: int| i <= j < kinds.len() && kinds[j] == kind ==> i + 1 <= j);
        }
    }
}

/// A kind that a release does not list carries nothing in it.
proof fn lemma_listed(kind: Kind, version: Version)
    ensures
        particle::layout_for(kind, version) != Layout::Nothing ==> exists|j: int|
            0 <= j < particle::kinds(version).len() && particle::kinds(version)[j] == kind,
{
    let all = particle::kinds(version);
    if version >= version::V_1_21_2 {
        assert(all[0] == Kind::Item);
        assert(all[1] == Kind::Block);
        assert(all[2] == Kind::BlockMarker);
        assert(all[3] == Kind::DustPillar);
        assert(all[4] == Kind::FallingDust);
        assert(all[5] == Kind::BlockCrumble);
        assert(all[6] == Kind::Dust);
        assert(all[7] == Kind::DustColorTransition);
        assert(all[8] == Kind::Vibration);
        assert(all[9] == Kind::SculkCharge);
        assert(all[10] == Kind::Shriek);
        assert(all[11] == Kind::EntityEffect);
        assert(all[12] == Kind::Trail);
        assert(all[13] == Kind::TintedLeaves);
        assert(all[14] == Kind::DragonBreath);
        assert(all[15] == Kind::Effect);
        assert(all[16] == Kind::InstantEffect);
        assert(all[17] == Kind::Flash);
        assert(all[18] == Kind::Geyser);
        assert(all[19] == Kind::GeyserBase);
        assert(all[20] == Kind::GeyserPoof);
        assert(all[21] == Kind::GeyserPlume);
    } else if version >= version::V_1_19 {
        assert(all[0] == Kind::Item);
        assert(all[1] == Kind::Block);
        assert(all[2] == Kind::BlockMarker);
        assert(all[3] == Kind::Dust);
        assert(all[4] == Kind::FallingDust);
        assert(all[5] == Kind::DustColorTransition);
        assert(all[6] == Kind::Vibration);
        assert(all[7] == Kind::SculkCharge);
        assert(all[8] == Kind::Shriek);
        assert(all[9] == Kind::DustPillar);
        assert(all[10] == Kind::EntityEffect);
    } else {
        assert(all[0] == Kind::Item);
        assert(all[1] == Kind::Block);
        assert(all[2] == Kind::Dust);
        assert(all[3] == Kind::FallingDust);
        assert(all[4] == Kind::DustColorTransition);
        assert(all[5] == Kind::Vibration);
        assert(all[6] == Kind::BlockMarker);
    }
}

proof fn lemma_layout(id: i32, kind: Kind, version: Version, cat: &Catalog)
    requires
        id <= 0xffff,
        catalog::name_at(cat.particles@, id) == Some(particle::kind_name(kind)),
    ensures
        particle::layout_of(id, version, cat) == particle::layout_for(kind, version),
{
    lemma_named(particle::kinds(version), kind, version, 0);
    lemma_listed(kind, version);
}

/// What a particle carries, by its name and the release.
pub proof fn particles_carry_data_by_their_name(id: i32, name: Seq<u8>, version: Version, cat: &Catalog)
    requires
        id <= 0xffff,
        catalog::name_at(cat.particles@, id) == Some(name),
    ensures
        name == wire::key("item") ==> particle::layout_of(id, version, cat) == Layout::Item,
        name == wire::key("block") ==> particle::layout_of(id, version, cat) == Layout::Block,
        name == wire::key("block_marker") ==> particle::layout_of(id, version, cat) == since(version, version::V_1_18, Layout::Block),
        name == wire::key("dust_pillar") ==> particle::layout_of(id, version, cat) == since(version, version::V_1_20_5, Layout::Block),
        name == wire::key("falling_dust") ==> particle::layout_of(id, version, cat) == Layout::Block,
        name == wire::key("block_crumble") ==> particle::layout_of(id, version, cat) == since(version, version::V_1_21_2, Layout::Block),
        name == wire::key("sculk_charge") ==> particle::layout_of(id, version, cat) == since(version, version::V_1_19, Layout::Float),
        name == wire::key("shriek") ==> particle::layout_of(id, version, cat) == since(version, version::V_1_19, Layout::Delay),
        name == wire::key("entity_effect") ==> particle::layout_of(id, version, cat) == since(version, version::V_1_20_5, Layout::Color),
        name == wire::key("tinted_leaves") ==> particle::layout_of(id, version, cat) == since(version, version::V_1_21_5, Layout::Color),
        name == wire::key("dragon_breath") ==> particle::layout_of(id, version, cat) == since(version, version::V_1_21_9, Layout::Float),
        name == wire::key("effect") ==> particle::layout_of(id, version, cat) == since(version, version::V_1_21_9, Layout::Spell),
        name == wire::key("instant_effect") ==> particle::layout_of(id, version, cat) == since(version, version::V_1_21_9, Layout::Spell),
        name == wire::key("flash") ==> particle::layout_of(id, version, cat) == since(version, version::V_1_21_9, Layout::Color),
        name == wire::key("geyser") ==> particle::layout_of(id, version, cat) == since(version, version::V_26_2, Layout::Geyser),
        name == wire::key("geyser_base") ==> particle::layout_of(id, version, cat) == since(version, version::V_26_2, Layout::GeyserBase),
        name == wire::key("geyser_poof") ==> particle::layout_of(id, version, cat) == since(version, version::V_26_2, Layout::GeyserBase),
        name == wire::key("geyser_plume") ==> particle::layout_of(id, version, cat) == since(version, version::V_26_2, Layout::Geyser),
        name == wire::key("dust") ==> particle::layout_of(id, version, cat) == (if version >= version::V_1_21_2 {
            Layout::DustRgb
        } else {
            Layout::DustFloats
        }),
        name == wire::key("dust_color_transition") ==> particle::layout_of(id, version, cat) == (if version >= version::V_1_21_2 {
            Layout::TransitionRgb
        } else if version >= version::V_1_20_5 {
            Layout::TransitionScaleLast
        } else if version >= version::V_1_17 {
            Layout::TransitionScaleMid
        } else {
            Layout::Nothing
        }),
        name == wire::key("vibration") ==> particle::layout_of(id, version, cat) == (if version >= version::V_1_20_3 {
            Layout::VibrationTyped
        } else if version >= version::V_1_19 {
            Layout::VibrationNamed
        } else if version >= version::V_1_17 {
            Layout::VibrationWithSource
        } else {
            Layout::Nothing
        }),
        name == wire::key("trail") ==> particle::layout_of(id, version, cat) == (if version >= version::V_1_21_4 {
            Layout::TrailWithDuration
        } else if version >= version::V_1_21_2 {
            Layout::Trail
        } else {
            Layout::Nothing
        }),
{
    if name == wire::key("item") {
        lemma_layout(id, Kind::Item, version, cat);
    }
    if name == wire::key("block") {
        lemma_layout(id, Kind::Block, version, cat);
    }
    if name == wire::key("block_marker") {
        lemma_layout(id, Kind::BlockMarker, version, cat);
    }
    if name == wire::key("dust_pillar") {
        lemma_layout(id, Kind::DustPillar, version, cat);
    }
    if name == wire::key("falling_dust") {
        lemma_layout(id, Kind::FallingDust, version, cat);
    }
    if name == wire::key("block_crumble") {
        lemma_layout(id, Kind::BlockCrumble, version, cat);
    }
    if name == wire::key("dust") {
        lemma_layout(id, Kind::Dust, version, cat);
    }
    if name == wire::key("dust_color_transition") {
        lemma_layout(id, Kind::DustColorTransition, version, cat);
    }
    if name == wire::key("vibration") {
        lemma_layout(id, Kind::Vibration, version, cat);
    }
    if name == wire::key("sculk_charge") {
        lemma_layout(id, Kind::SculkCharge, version, cat);
    }
    if name == wire::key("shriek") {
        lemma_layout(id, Kind::Shriek, version, cat);
    }
    if name == wire::key("entity_effect") {
        lemma_layout(id, Kind::EntityEffect, version, cat);
    }
    if name == wire::key("trail") {
        lemma_layout(id, Kind::Trail, version, cat);
    }
    if name == wire::key("tinted_leaves") {
        lemma_layout(id, Kind::TintedLeaves, version, cat);
    }
    if name == wire::key("dragon_breath") {
        lemma_layout(id, Kind::DragonBreath, version, cat);
    }
    if name == wire::key("effect") {
        lemma_layout(id, Kind::Effect, version, cat);
    }
    if name == wire::key("instant_effect") {
        lemma_layout(id, Kind::InstantEffect, version, cat);
    }
    if name == wire::key("flash") {
        lemma_layout(id, Kind::Flash, version, cat);
    }
    if name == wire::key("geyser") {
        lemma_layout(id, Kind::Geyser, version, cat);
    }
    if name == wire::key("geyser_base") {
        lemma_layout(id, Kind::GeyserBase, version, cat);
    }
    if name == wire::key("geyser_poof") {
        lemma_layout(id, Kind::GeyserPoof, version, cat);
    }
    if name == wire::key("geyser_plume") {
        lemma_layout(id, Kind::GeyserPlume, version, cat);
    }
}

} // verus!
