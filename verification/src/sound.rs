//! Sounds, by number and by name.
use vstd::prelude::*;
use crate::catalog;
use crate::item_component;
use crate::mapping;
use crate::shape;
use crate::shape::Shape;
use crate::target::Target;
use crate::text;
use crate::version;
use crate::version::Version;
use crate::wire;
use crate::wire::ReadingError;
use crate::wire::TranslateError;

verus! {

/// The release from which a sound is a number or spelled out.
pub const FIRST_HOLDER: Version = version::V_1_19_3;

/// What a step of a translation does: nothing where the payload cannot be read,
/// `None` inside where the client has no such thing and the packet is dropped,
/// else the bytes with what stands behind those that were read.
pub type Shown = Option<Option<(Seq<u8>, Seq<u8>)>>;

/// A sound that is spelled out: its name and, where it has one, its range.
#[verifier::allow_in_spec]
pub fn inline_sound_shape() -> Shape
    returns
        (shape::pair(Shape::Str, shape::opt(Shape::Fixed(4)))),
{
    shape::pair(Shape::Str, shape::opt(Shape::Fixed(4)))
}

/// The client's number for a number that counts from one.
pub open spec fn mapped_holder(id: i32, to: &Target) -> Option<i32> {
    if id <= 0 {
        None
    } else {
        item_component::next_int(mapping::mapped(to.ids.sounds@, (id - 1) as i32))
    }
}

/// A sound for the client.
pub open spec fn holder_written(s: Seq<u8>, to: &Target) -> Shown {
    match wire::take_var_int(s) {
        Some((id, t)) => if to.version < FIRST_HOLDER {
            match mapping::mapped(to.ids.sounds@, id) {
                Some(mapped) => Some(Some((wire::enc_var_int(mapped), t))),
                None => Some(None),
            }
        } else if id == 0 {
            match shape::recode(inline_sound_shape(), t, to.cat, to.version) {
                Some((bytes, rest)) => Some(Some((wire::enc_var_int(0) + bytes, rest))),
                None => None,
            }
        } else {
            match mapped_holder(id, to) {
                Some(mapped) => Some(Some((wire::enc_var_int(mapped), t))),
                None => Some(None),
            }
        },
        None => None,
    }
}

/// Translates a sound; `false` where the client has no such sound.
pub fn rewrite_holder(r: &mut &[u8], out: &mut Vec<u8>, to: &Target) -> (res: Result<bool, ReadingError>)
    ensures
        match holder_written(old(r)@, to) {
            Some(Some((bytes, rest))) => res == Ok::<bool, ReadingError>(true) && final(out)@ == old(out)@ + bytes
                && final(r)@ == rest,
            Some(None) => res == Ok::<bool, ReadingError>(false) && final(out)@ == old(out)@,
            None => res is Err,
        },
{
    let ghost before = out@;
    let id: i32 = wire::get_var_int(r)?;
    if to.version >= FIRST_HOLDER && id == 0 {
        wire::write_var_int(out, 0);
        let ghost inline = shape::recode(inline_sound_shape(), r@, to.cat, to.version);
        shape::rewrite(&inline_sound_shape(), r, out, to.cat, to.version)?;
        assert(out@ =~= before + (wire::enc_var_int(0) + inline.unwrap().0));
        return Ok(true);
    }
    let mapped: Option<i32> = if to.version < FIRST_HOLDER {
        to.ids.sounds.map_id(id)
    } else if id < 0 {
        None
    } else {
        item_component::next(to.ids.sounds.map_id(id - 1))
    };
    match mapped {
        Some(mapped) => {
            wire::write_var_int(out, mapped);
            Ok(true)
        },
        None => Ok(false),
    }
}

/// A packet that opens with a sound.
pub open spec fn sound_written(s: Seq<u8>, to: &Target) -> Option<Option<Seq<u8>>> {
    match holder_written(s, to) {
        Some(Some((bytes, rest))) => Some(Some(bytes + rest)),
        Some(None) => Some(None),
        None => None,
    }
}

/// Whether a result is the payload that was wanted; `None` drops the packet.
pub open spec fn same_fate(res: Result<Option<Vec<u8>>, ReadingError>, wanted: Option<Option<Seq<u8>>>) -> bool {
    match wanted {
        Some(Some(payload)) => res is Ok && res->Ok_0 is Some && res->Ok_0.unwrap()@ == payload,
        Some(None) => res is Ok && res->Ok_0 is None,
        None => res is Err,
    }
}

/// Translates a packet that opens with a sound.
pub fn sound(payload: &[u8], to: &Target) -> (res: Result<Option<Vec<u8>>, ReadingError>)
    ensures
        same_fate(res, sound_written(payload@, to)),
{
    let mut r: &[u8] = payload;
    let mut out: Vec<u8> = Vec::new();
    if rewrite_holder(&mut r, &mut out, to)? {
        let ghost head = out@;
        wire::write_bytes(&mut out, r);
        proof {
            let (bytes, rest) = holder_written(payload@, to).unwrap().unwrap();
            assert(head =~= bytes);
        }
        Ok(Some(out))
    } else {
        Ok(None)
    }
}

/// Whether a client can be told of a sound by its name. A name that the server
/// does not know may come with a resource pack, and is told; so is one that the
/// client has a number for.
pub open spec fn name_is_known(name: Seq<u8>, to: &Target) -> bool {
    match catalog::index_of(to.cat.sounds@, text::bare(name)) {
        Some(id) => to.version >= version::V_26_3 || mapping::target_of(to.ids.sounds@, id as u32) is Some,
        None => true,
    }
}

/// A packet that stops sounds: flags, a source and a name as the flags say. `None`
/// drops it.
pub open spec fn stop_written(s: Seq<u8>, to: &Target) -> Result<Option<Seq<u8>>, TranslateError> {
    match wire::take_u8(s) {
        Some((flags, t)) => if flags > 3 {
            Err(TranslateError::SoundFlags)
        } else {
            let source = if flags % 2 == 1 {
                shape::recode(Shape::VarInt, t, to.cat, to.version)
            } else {
                Some((seq![], t))
            };
            match source {
                Some((bytes, u)) => if flags >= 2 {
                    match wire::take_str(u) {
                        Some((name, rest)) => if name_is_known(name, to) {
                            Ok(Some(seq![flags] + bytes + wire::enc_str(name) + rest))
                        } else {
                            Ok(None)
                        },
                        None => Err(TranslateError::Malformed),
                    }
                } else {
                    Ok(Some(seq![flags] + bytes + u))
                },
                None => Err(TranslateError::Malformed),
            }
        },
        None => Err(TranslateError::Malformed),
    }
}

fn knows_name(name: &[u8], to: &Target) -> (res: bool)
    ensures
        res == name_is_known(name@, to),
{
    match catalog::find_name(&to.cat.sounds, text::bare_name(name)) {
        Some(id) => {
            if to.version >= version::V_26_3 {
                return true;
            }
            proof {
                catalog::lemma_index_of(to.cat.sounds@, text::bare(name@));
            }
            to.ids.sounds.map(id as u32).is_some()
        },
        None => true,
    }
}

/// Translates a packet that stops sounds.
pub fn stop_sound(payload: &[u8], to: &Target) -> (res: Result<Option<Vec<u8>>, TranslateError>)
    ensures
        match stop_written(payload@, to) {
            Ok(Some(wanted)) => res is Ok && res->Ok_0 is Some && res->Ok_0.unwrap()@ == wanted,
            Ok(None) => res is Ok && res->Ok_0 is None,
            Err(error) => res is Err && res->Err_0 == error,
        },
{
    let mut r: &[u8] = payload;
    let mut out: Vec<u8> = Vec::new();
    let flags: u8 = wire::or_malformed(wire::get_u8(&mut r))?;
    if flags > 3 {
        return Err(TranslateError::SoundFlags);
    }
    out.push(flags);
    assert(out@ =~= seq![flags]);
    if flags % 2 == 1 {
        wire::or_malformed(shape::rewrite(&Shape::VarInt, &mut r, &mut out, to.cat, to.version))?;
    } else {
        assert(out@ =~= seq![flags] + Seq::<u8>::empty());
    }
    if flags >= 2 {
        let name: &[u8] = wire::or_malformed(wire::get_str(&mut r))?;
        if !knows_name(name, to) {
            return Ok(None);
        }
        wire::write_str(&mut out, name);
    }
    wire::write_bytes(&mut out, r);
    Ok(Some(out))
}

// --- laws ---------------------------------------------------------------------------------------

/// A packet that stops sounds is never changed: it passes as it is, unless it names
/// a sound that the client lacks, and is dropped with such a name.
pub proof fn stopped_sounds_keep_their_names(flags: u8, source: i32, name: Seq<u8>, rest: Seq<u8>, to: &Target)
    requires
        flags <= 3,
        name.len() <= wire::MAX_STRING_BYTES,
        vstd::utf8::valid_utf8(name),
    ensures
        ({
            let head = if flags % 2 == 1 {
                seq![flags] + wire::enc_var_int(source)
            } else {
                seq![flags]
            };
            let payload = if flags >= 2 {
                head + wire::enc_str(name) + rest
            } else {
                head + rest
            };
            stop_written(payload, to) == Ok::<Option<Seq<u8>>, TranslateError>(
                if flags >= 2 && !name_is_known(name, to) {
                    None
                } else {
                    Some(payload)
                },
            )
        }),
{
    let tail = if flags >= 2 {
        wire::enc_str(name) + rest
    } else {
        rest
    };
    wire::var_int_round_trip(source, tail);
    wire::str_round_trip(name, rest);
    let whole = if flags % 2 == 1 {
        seq![flags] + (wire::enc_var_int(source) + tail)
    } else {
        seq![flags] + tail
    };
    let head = if flags % 2 == 1 {
        seq![flags] + wire::enc_var_int(source)
    } else {
        seq![flags]
    };
    let payload = if flags >= 2 {
        head + wire::enc_str(name) + rest
    } else {
        head + rest
    };
    assert(payload =~= whole);
    if flags % 2 == 1 {
        assert(payload.skip(1) =~= wire::enc_var_int(source) + tail);
    } else {
        assert(payload.skip(1) =~= tail);
        assert(seq![flags] + Seq::<u8>::empty() =~= seq![flags]);
    }
}

} // verus!
