//! Component payloads between the server's layout and a client's.
use vstd::prelude::*;
use vstd::slice::slice_to_vec;
use crate::catalog;
use crate::catalog::Catalog;
use crate::catalog::DataComponent;
use crate::mapping;
use crate::mapping::ComposedMappings;
use crate::mapping::IdMapping;
use crate::nbt;
use crate::nbt::Entry;
use crate::nbt::NbtCompound;
use crate::nbt::NbtTag;
use crate::number;
use crate::shape;
use crate::shape::Shape;
use crate::text;
use crate::types;
use crate::version;
use crate::version::Version;
use crate::wire;
use crate::wire::ReadingError;

verus! {

/// The most entries a list inside a payload may have.
pub const MAX_ENTRIES: i32 = 4096;

/// The oldest release whose layout of a component is the server's.
pub open spec fn floor_of(component: DataComponent) -> Version {
    match component {
        DataComponent::AttributeModifiers
        | DataComponent::JukeboxPlayable
        | DataComponent::AttackAnimation
        | DataComponent::InteractAnimation => version::V_26_2,
        DataComponent::EntityData | DataComponent::BlockEntityData | DataComponent::Profile => version::V_1_21_9,
        DataComponent::Equippable => version::V_1_21_6,
        DataComponent::Unbreakable
        | DataComponent::Enchantments
        | DataComponent::StoredEnchantments
        | DataComponent::DyedColor
        | DataComponent::Tool
        | DataComponent::CanPlaceOn
        | DataComponent::CanBreak
        | DataComponent::IntangibleProjectile => version::V_1_21_5,
        DataComponent::Trim | DataComponent::Instrument | DataComponent::ProvidesTrimMaterial => version::V_26_3,
        DataComponent::Food => version::V_1_21_2,
        DataComponent::CustomModelData => version::V_1_21_4,
        _ => version::V_1_20_5,
    }
}

/// The oldest release whose layout of a component is the server's.
pub fn shape_floor(component: DataComponent) -> (res: Version)
    ensures
        res == floor_of(component),
{
    match component {
        DataComponent::AttributeModifiers
        | DataComponent::JukeboxPlayable
        | DataComponent::AttackAnimation
        | DataComponent::InteractAnimation => version::V_26_2,
        DataComponent::EntityData | DataComponent::BlockEntityData | DataComponent::Profile => version::V_1_21_9,
        DataComponent::Equippable => version::V_1_21_6,
        DataComponent::Unbreakable
        | DataComponent::Enchantments
        | DataComponent::StoredEnchantments
        | DataComponent::DyedColor
        | DataComponent::Tool
        | DataComponent::CanPlaceOn
        | DataComponent::CanBreak
        | DataComponent::IntangibleProjectile => version::V_1_21_5,
        DataComponent::Trim | DataComponent::Instrument | DataComponent::ProvidesTrimMaterial => version::V_26_3,
        DataComponent::Food => version::V_1_21_2,
        DataComponent::CustomModelData => version::V_1_21_4,
        _ => version::V_1_20_5,
    }
}

// --- enchantment levels ---------------------------------------------------------------

/// What an id becomes towards the client, or back from it.
pub open spec fn carried(slots: Seq<Option<u32>>, back: bool, id: i32) -> Option<i32> {
    if back {
        mapping::unmapped(slots, id)
    } else {
        mapping::mapped(slots, id)
    }
}

pub fn carry(table: &IdMapping, back: bool, id: i32) -> (res: Option<i32>)
    ensures
        res == carried(table@, back, id),
{
    if back {
        table.unmap_id(id)
    } else {
        table.map_id(id)
    }
}

/// `n` ids with their levels, those that have a counterpart put behind `kept`.
pub open spec fn take_levels(
    kept: Seq<(i32, i32)>,
    n: nat,
    s: Seq<u8>,
    slots: Seq<Option<u32>>,
    back: bool,
) -> Option<Seq<(i32, i32)>>
    decreases n,
{
    if n == 0 {
        Some(kept)
    } else {
        match wire::take_var_int(s) {
            Some((id, t)) => match wire::take_var_int(t) {
                Some((level, rest)) => take_levels(
                    match carried(slots, back, id) {
                        Some(mapped) => kept.push((mapped, level)),
                        None => kept,
                    },
                    (n - 1) as nat,
                    rest,
                    slots,
                    back,
                ),
                None => None,
            },
            None => None,
        }
    }
}

pub open spec fn enc_pairs(pairs: Seq<(i32, i32)>) -> Seq<u8>
    decreases pairs.len(),
{
    if pairs.len() == 0 {
        seq![]
    } else {
        enc_pairs(pairs.drop_last()) + wire::enc_var_int(pairs.last().0) + wire::enc_var_int(pairs.last().1)
    }
}

/// An enchantment list with its ids carried over; an id without a counterpart
/// takes its level with it.
pub open spec fn levels_carried(native: Seq<u8>, slots: Seq<Option<u32>>, back: bool) -> Option<Seq<u8>> {
    match wire::take_var_int(native) {
        Some((n, s)) => match take_levels(seq![], shape::times(n), s, slots, back) {
            Some(kept) => Some(wire::enc_len(kept.len()) + enc_pairs(kept)),
            None => None,
        },
        None => None,
    }
}

pub open spec fn same_result(res: Result<Vec<u8>, ReadingError>, wanted: Option<Seq<u8>>) -> bool {
    match wanted {
        Some(bytes) => res is Ok && res->Ok_0@ =~= bytes,
        None => res is Err,
    }
}

pub fn write_pairs(out: &mut Vec<u8>, pairs: &Vec<(i32, i32)>)
    ensures
        final(out)@ == old(out)@ + enc_pairs(pairs@),
{
    let mut i: usize = 0;
    assert(pairs@.take(0) =~= seq![]);
    assert(out@ =~= old(out)@ + enc_pairs(pairs@.take(0)));
    while i < pairs.len()
        invariant
            i <= pairs.len(),
            out@ == old(out)@ + enc_pairs(pairs@.take(i as int)),
        decreases pairs.len() - i,
    {
        wire::write_var_int(out, pairs[i].0);
        wire::write_var_int(out, pairs[i].1);
        proof {
            let next = pairs@.take(i + 1);
            assert(next.drop_last() =~= pairs@.take(i as int));
            assert(out@ =~= old(out)@ + enc_pairs(next));
        }
        i = i + 1;
    }
    assert(pairs@.take(pairs@.len() as int) =~= pairs@);
}

/// Carries the ids of an enchantment list over to the client, or back from it.
#[verifier::loop_isolation(false)]
pub fn carry_levels(native: &[u8], table: &IdMapping, back: bool) -> (res: Result<Vec<u8>, ReadingError>)
    ensures
        same_result(res, levels_carried(native@, table@, back)),
{
    let mut r: &[u8] = native;
    let n: i32 = wire::get_var_int(&mut r)?;
    let ghost start = r@;
    let mut kept: Vec<(i32, i32)> = Vec::new();
    let mut left: u32 = if n < 0 { 0 } else { n as u32 };
    while left > 0
        invariant
            take_levels(seq![], shape::times(n), start, table@, back) == take_levels(
                kept@,
                left as nat,
                r@,
                table@,
                back,
            ),
        decreases left,
    {
        let id: i32 = wire::get_var_int(&mut r)?;
        let level: i32 = wire::get_var_int(&mut r)?;
        if let Some(mapped) = carry(table, back, id) {
            kept.push((mapped, level));
        }
        left = left - 1;
    }
    let mut out: Vec<u8> = Vec::new();
    wire::write_len(&mut out, kept.len());
    write_pairs(&mut out, &kept);
    Ok(out)
}

// --- attribute modifiers ---------------------------------------------------------------

/// A modifier behind its attribute: name, amount, operation, slot, and a display
/// that carries a text where it is the third kind.
#[verifier::allow_in_spec]
pub fn modifier_tail() -> Shape
    returns
        (shape::four(
            Shape::Str,
            Shape::Fixed(8),
            Shape::VarInt,
            shape::pair(Shape::VarInt, shape::case(2, Shape::Nbt, Shape::Empty)),
        )),
{
    shape::four(
        Shape::Str,
        Shape::Fixed(8),
        Shape::VarInt,
        shape::pair(Shape::VarInt, shape::case(2, Shape::Nbt, Shape::Empty)),
    )
}

/// `n` modifiers, those whose attribute has a counterpart counted and written
/// behind `body`.
pub open spec fn take_attributes(
    count: nat,
    body: Seq<u8>,
    n: nat,
    s: Seq<u8>,
    slots: Seq<Option<u32>>,
    cat: &Catalog,
) -> Option<(nat, Seq<u8>)>
    decreases n,
{
    if n == 0 {
        Some((count, body))
    } else {
        match wire::take_var_int(s) {
            Some((attribute, t)) => match shape::recode(modifier_tail(), t, cat, version::V_26_3) {
                Some((entry, rest)) => match mapping::mapped(slots, attribute) {
                    Some(mapped) => take_attributes(
                        count + 1,
                        body + (wire::enc_var_int(mapped) + entry),
                        (n - 1) as nat,
                        rest,
                        slots,
                        cat,
                    ),
                    None => take_attributes(count, body, (n - 1) as nat, rest, slots, cat),
                },
                None => None,
            },
            None => None,
        }
    }
}

/// A modifier list with its attributes carried over to the client; an attribute
/// without a counterpart takes its modifier with it.
pub open spec fn attributes_mapped(native: Seq<u8>, slots: Seq<Option<u32>>, cat: &Catalog) -> Option<Seq<u8>> {
    match wire::take_var_int(native) {
        Some((n, s)) => match take_attributes(0, seq![], shape::times(n), s, slots, cat) {
            Some((count, body)) => Some(wire::enc_len(count) + body),
            None => None,
        },
        None => None,
    }
}

#[verifier::loop_isolation(false)]
pub fn attribute_ids(native: &[u8], ids: &ComposedMappings, cat: &Catalog) -> (res: Result<
    Vec<u8>,
    ReadingError,
>)
    ensures
        same_result(res, attributes_mapped(native@, ids.attributes@, cat)),
{
    let mut r: &[u8] = native;
    let n: i32 = wire::get_var_int(&mut r)?;
    let ghost start = r@;
    let mut body: Vec<u8> = Vec::new();
    let mut count: usize = 0;
    let mut left: u32 = if n < 0 { 0 } else { n as u32 };
    let shape: Shape = modifier_tail();
    while left > 0
        invariant
            count + left <= shape::times(n),
            take_attributes(0, seq![], shape::times(n), start, ids.attributes@, cat) == take_attributes(
                count as nat,
                body@,
                left as nat,
                r@,
                ids.attributes@,
                cat,
            ),
        decreases left,
    {
        let attribute: i32 = wire::get_var_int(&mut r)?;
        let mut entry: Vec<u8> = Vec::new();
        shape::rewrite(&shape, &mut r, &mut entry, cat, version::V_26_3)?;
        if let Some(mapped) = ids.attributes.map_id(attribute) {
            let ghost before = body@;
            wire::write_var_int(&mut body, mapped);
            wire::write_bytes(&mut body, entry.as_slice());
            assert(body@ =~= before + (wire::enc_var_int(mapped) + entry@));
            count = count + 1;
        }
        left = left - 1;
    }
    let mut out: Vec<u8> = Vec::new();
    wire::write_len(&mut out, count);
    wire::write_bytes(&mut out, body.as_slice());
    Ok(out)
}

pub const FNV_OFFSET: u64 = 0xcbf2_9ce4_8422_2325;
pub const FNV_PRIME: u64 = 0x0000_0100_0000_01b3;

/// The FNV-1a hash of a text.
pub open spec fn fnv(text: Seq<u8>) -> u64
    decreases text.len(),
{
    if text.len() == 0 {
        FNV_OFFSET
    } else {
        (fnv(text.drop_last()) ^ (text.last() as u64)).wrapping_mul(FNV_PRIME)
    }
}

/// The two halves of a number swapped.
pub open spec fn swapped(n: u64) -> u64 {
    ((n % 0x1_0000_0000) * 0x1_0000_0000 + n / 0x1_0000_0000) as u64
}

pub open spec fn magnitude(n: i32) -> u64 {
    if n < 0 {
        (-n) as u64
    } else {
        n as u64
    }
}

/// A stand-in for the identifier that 1.20.5 knows a modifier by: its high half
/// hashes the name, its low half the name and the place in the list.
pub open spec fn modifier_uuid(name: Seq<u8>, index: i32) -> (u64, u64) {
    (fnv(name), swapped(fnv(name)).wrapping_add(magnitude(index).wrapping_mul(FNV_PRIME)))
}

/// A stand-in for the identifier that 1.20.5 knows a modifier by: stable across
/// sends and distinct within one component, which is all it is for. Given as its
/// high and low half.
pub fn legacy_modifier_uuid(name: &[u8], index: i32) -> (res: (u64, u64))
    ensures
        res == modifier_uuid(name@, index),
{
    let mut hash: u64 = FNV_OFFSET;
    let mut i: usize = 0;
    assert(name@.take(0) =~= seq![]);
    while i < name.len()
        invariant
            i <= name.len(),
            hash == fnv(name@.take(i as int)),
        decreases name.len() - i,
    {
        proof {
            let next = name@.take(i + 1);
            assert(next.drop_last() =~= name@.take(i as int));
            assert(next.last() == name@[i as int]);
        }
        hash = (hash ^ (name[i] as u64)).wrapping_mul(FNV_PRIME);
        i = i + 1;
    }
    assert(name@.take(name@.len() as int) =~= name@);
    let mixed: u64 = (hash % 0x1_0000_0000) * 0x1_0000_0000 + hash / 0x1_0000_0000;
    let place: u64 = if index < 0 {
        (-(index as i64)) as u64
    } else {
        index as u64
    };
    (hash, mixed.wrapping_add(place.wrapping_mul(FNV_PRIME)))
}

/// An odd factor tells numbers apart, modulo 2^64.
proof fn lemma_prime_tells_apart(a: int, b: int)
    requires
        0 <= a < 0x8000_0000,
        0 <= b < 0x8000_0000,
        (a * 0x100_0000_01b3) % 0x1_0000_0000_0000_0000 == (b * 0x100_0000_01b3) % 0x1_0000_0000_0000_0000,
    ensures
        a == b,
{
    let m = 0x1_0000_0000_0000_0000int;
    let p = 0x100_0000_01b3int;
    let inverse = 0xce96_5057_aff6_957bint;
    let t = 887285111055int;
    let d = a - b;
    let q = (a * p) / m - (b * p) / m;
    assert(p * inverse == 1 + t * m);
    assert(d * p == q * m) by {
        vstd::arithmetic::div_mod::lemma_fundamental_div_mod(a * p, m);
        vstd::arithmetic::div_mod::lemma_fundamental_div_mod(b * p, m);
        assert(d * p == a * p - b * p) by (nonlinear_arith)
            requires
                d == a - b,
        ;
    }
    let k = q * inverse - d * t;
    assert(d == k * m) by (nonlinear_arith)
        requires
            d * p == q * m,
            p * inverse == 1 + t * m,
            k == q * inverse - d * t,
    ;
    assert(d == 0) by (nonlinear_arith)
        requires
            d == k * m,
            m == 0x1_0000_0000_0000_0000,
            -0x8000_0000 < d < 0x8000_0000,
    ;
}

/// The identifiers of two modifiers in different places are different, whatever the
/// modifiers are called.
pub proof fn modifier_uuids_are_distinct(a: Seq<u8>, b: Seq<u8>, i: i32, j: i32)
    requires
        0 <= i,
        0 <= j,
        i != j,
    ensures
        modifier_uuid(a, i) != modifier_uuid(b, j),
{
    if modifier_uuid(a, i) == modifier_uuid(b, j) {
        let m = 0x1_0000_0000_0000_0000int;
        let x = magnitude(i).wrapping_mul(FNV_PRIME);
        let y = magnitude(j).wrapping_mul(FNV_PRIME);
        let s = swapped(fnv(a));
        assert(s.wrapping_add(x) == s.wrapping_add(y));
        assert(x == y);
        assert(x == (i * 0x100_0000_01b3) % m);
        assert(y == (j * 0x100_0000_01b3) % m);
        lemma_prime_tells_apart(i as int, j as int);
    }
}

/// The slot of a modifier; the saddle slot arrives in 1.21.5, and the body is the
/// nearest one.
pub open spec fn modifier_slot(slot: i32, target: Version) -> i32 {
    if slot == 10 && target <= version::V_1_21_4 {
        9
    } else {
        slot
    }
}

/// The identifier of a modifier where the layout has one.
pub open spec fn modifier_id(name: Seq<u8>, index: int, target: Version) -> Seq<u8> {
    if target <= version::V_1_20_5 {
        let (high, low) = modifier_uuid(name, index as i32);
        wire::enc_u64(high) + wire::enc_u64(low)
    } else {
        seq![]
    }
}

/// One modifier in an older layout: without its display, with an identifier up
/// to 1.20.5.
#[verifier::opaque]
pub open spec fn modifier_adapted(s: Seq<u8>, index: int, target: Version) -> Option<(Seq<u8>, Seq<u8>)> {
    match wire::take_var_int(s) {
        Some((attribute, s1)) => match wire::take_str(s1) {
            Some((name, s2)) => match wire::take_u64(s2) {
                Some((amount, s3)) => match wire::take_var_int(s3) {
                    Some((operation, s4)) => match wire::take_var_int(s4) {
                        Some((slot, s5)) => match wire::take_var_int(s5) {
                            Some((display, s6)) => {
                                let rest = if display == 2 {
                                    shape::drop_nbt(s6, version::V_26_3)
                                } else {
                                    Some(s6)
                                };
                                match rest {
                                    Some(rest) => Some(
                                        (
                                            wire::enc_var_int(attribute) + modifier_id(name, index, target)
                                                + wire::enc_str(name) + wire::enc_u64(amount)
                                                + wire::enc_var_int(operation) + wire::enc_var_int(
                                                modifier_slot(slot, target),
                                            ),
                                            rest,
                                        ),
                                    ),
                                    None => None,
                                }
                            },
                            None => None,
                        },
                        None => None,
                    },
                    None => None,
                },
                None => None,
            },
            None => None,
        },
        None => None,
    }
}

pub open spec fn modifiers_adapted(index: int, n: nat, s: Seq<u8>, target: Version) -> Option<Seq<u8>>
    decreases n,
{
    if n == 0 {
        Some(seq![])
    } else {
        match modifier_adapted(s, index, target) {
            Some((out, rest)) => match modifiers_adapted(index + 1, (n - 1) as nat, rest, target) {
                Some(more) => Some(out + more),
                None => None,
            },
            None => None,
        }
    }
}

/// What ends a modifier list: a tooltip flag up to 1.21.4, and in 1.21.11 one
/// display for the whole list.
pub open spec fn modifiers_end(target: Version) -> Seq<u8> {
    if target <= version::V_1_21_4 {
        seq![1u8]
    } else if target == version::V_1_21_11 {
        wire::enc_var_int(0)
    } else {
        seq![]
    }
}

/// A modifier list in an older layout.
pub open spec fn attribute_modifiers_adapted(native: Seq<u8>, target: Version) -> Option<Seq<u8>> {
    match wire::take_var_int(native) {
        Some((n, s)) => match modifiers_adapted(0, shape::times(n), s, target) {
            Some(body) => Some(wire::enc_var_int(n) + body + modifiers_end(target)),
            None => None,
        },
        None => None,
    }
}

fn adapt_modifier(r: &mut &[u8], out: &mut Vec<u8>, index: i32, target: Version) -> (res: Result<
    (),
    ReadingError,
>)
    ensures
        match modifier_adapted(old(r)@, index as int, target) {
            Some((bytes, rest)) => res is Ok && final(out)@ == old(out)@ + bytes && final(r)@ == rest,
            None => res is Err,
        },
{
    proof {
        reveal(modifier_adapted);
    }
    let attribute: i32 = wire::get_var_int(r)?;
    let name: &[u8] = wire::get_str(r)?;
    let amount: u64 = wire::get_u64(r)?;
    let operation: i32 = wire::get_var_int(r)?;
    let slot: i32 = wire::get_var_int(r)?;
    let display: i32 = wire::get_var_int(r)?;
    if display == 2 {
        shape::skip_nbt(r, version::V_26_3)?;
    }
    let mut entry: Vec<u8> = wire::var_int_bytes(attribute);
    if target <= version::V_1_20_5 {
        let (high, low): (u64, u64) = legacy_modifier_uuid(name, index);
        wire::write_u64(&mut entry, high);
        wire::write_u64(&mut entry, low);
    }
    assert(entry@ =~= wire::enc_var_int(attribute) + modifier_id(name@, index as int, target));
    wire::write_str(&mut entry, name);
    wire::write_u64(&mut entry, amount);
    wire::write_var_int(&mut entry, operation);
    wire::write_var_int(
        &mut entry,
        if slot == 10 && target <= version::V_1_21_4 {
            9
        } else {
            slot
        },
    );
    wire::write_bytes(out, entry.as_slice());
    Ok(())
}

#[verifier::loop_isolation(false)]
pub fn attribute_modifiers(native: &[u8], target: Version) -> (res: Result<Vec<u8>, ReadingError>)
    ensures
        same_result(res, attribute_modifiers_adapted(native@, target)),
{
    let mut r: &[u8] = native;
    let n: i32 = wire::get_var_int(&mut r)?;
    let ghost start = r@;
    let mut out: Vec<u8> = Vec::new();
    wire::write_var_int(&mut out, n);
    let ghost head = out@;
    let count: i32 = if n < 0 { 0 } else { n };
    let mut index: i32 = 0;
    assert(out@ =~= head + Seq::<u8>::empty());
    while index < count
        invariant
            0 <= index <= count,
            match modifiers_adapted(0, shape::times(n), start, target) {
                Some(body) => modifiers_adapted(index as int, (count - index) as nat, r@, target) matches Some(
                    more,
                ) && head + body == out@ + more,
                None => modifiers_adapted(index as int, (count - index) as nat, r@, target) is None,
            },
        decreases count - index,
    {
        let ghost before = out@;
        let ghost here = r@;
        adapt_modifier(&mut r, &mut out, index, target)?;
        proof {
            let (bytes, rest) = modifier_adapted(here, index as int, target)->0;
            if let Some(more) = modifiers_adapted(index + 1, (count - index - 1) as nat, r@, target) {
                assert(before + (bytes + more) =~= out@ + more);
            }
        }
        index = index + 1;
    }
    if target <= version::V_1_21_4 {
        out.push(1);
    } else if target == version::V_1_21_11 {
        wire::write_var_int(&mut out, 0);
    }
    Ok(out)
}

// --- payloads that older layouts are a prefix of --------------------------------------

/// The fields of an equippable component that a release knows.
pub open spec fn equippable_shape(target: Version) -> Shape {
    shape::four(
        Shape::VarInt,
        shape::sound(),
        shape::three(shape::opt(Shape::Str), shape::opt(Shape::Str), shape::opt(Shape::IdSet)),
        if target <= version::V_1_21_4 {
            shape::three(Shape::Bool, Shape::Bool, Shape::Bool)
        } else {
            shape::four(Shape::Bool, Shape::Bool, Shape::Bool, Shape::Bool)
        },
    )
}

/// An equippable component in an older layout. The saddle slot arrives in
/// 1.21.5, and before it a component for it is nothing.
pub open spec fn equippable_adapted(native: Seq<u8>, target: Version, cat: &Catalog) -> Option<Seq<u8>> {
    match wire::take_var_int(native) {
        Some((slot, s)) => if slot == 7 && target <= version::V_1_21_4 {
            None
        } else {
            match shape::recode(equippable_shape(target), native, cat, version::V_26_3) {
                Some((out, rest)) => Some(out),
                None => None,
            }
        },
        None => None,
    }
}

pub open spec fn same_option(res: Option<Vec<u8>>, wanted: Option<Seq<u8>>) -> bool {
    match wanted {
        Some(bytes) => res is Some && res->0@ =~= bytes,
        None => res is None,
    }
}

pub fn equippable(native: &[u8], target: Version, cat: &Catalog) -> (res: Option<Vec<u8>>)
    ensures
        same_option(res, equippable_adapted(native@, target, cat)),
{
    let mut peek: &[u8] = native;
    match wire::get_var_int(&mut peek) {
        Ok(slot) => {
            if slot == 7 && target <= version::V_1_21_4 {
                return None;
            }
        },
        Err(_) => {
            return None;
        },
    }
    let flags: Shape = if target <= version::V_1_21_4 {
        shape::three(Shape::Bool, Shape::Bool, Shape::Bool)
    } else {
        shape::four(Shape::Bool, Shape::Bool, Shape::Bool, Shape::Bool)
    };
    let layout: Shape = shape::four(
        Shape::VarInt,
        shape::sound(),
        shape::three(shape::opt(Shape::Str), shape::opt(Shape::Str), shape::opt(Shape::IdSet)),
        flags,
    );
    let mut r: &[u8] = native;
    let mut out: Vec<u8> = Vec::new();
    match shape::rewrite(&layout, &mut r, &mut out, cat, version::V_26_3) {
        Ok(_) => Some(out),
        Err(_) => None,
    }
}

/// A profile before 1.21.9: a name, an identifier and properties.
#[verifier::allow_in_spec]
pub fn profile_shape() -> Shape
    returns
        (shape::three(
            shape::opt(Shape::Str),
            shape::opt(Shape::Fixed(16)),
            shape::repeat(shape::three(Shape::Str, Shape::Str, shape::opt(Shape::Str))),
        )),
{
    shape::three(
        shape::opt(Shape::Str),
        shape::opt(Shape::Fixed(16)),
        shape::repeat(shape::three(Shape::Str, Shape::Str, shape::opt(Shape::Str))),
    )
}

/// A profile without the kind before it and the skin patch behind it.
pub open spec fn profile_adapted(native: Seq<u8>, cat: &Catalog) -> Option<Seq<u8>> {
    match wire::take_var_int(native) {
        Some((kind, s)) => match shape::recode(profile_shape(), s, cat, version::V_26_3) {
            Some((out, rest)) => Some(out),
            None => None,
        },
        None => None,
    }
}

pub fn profile(native: &[u8], cat: &Catalog) -> (res: Result<Vec<u8>, ReadingError>)
    ensures
        same_result(res, profile_adapted(native@, cat)),
{
    let mut r: &[u8] = native;
    wire::get_var_int(&mut r)?;
    let mut out: Vec<u8> = Vec::new();
    shape::rewrite(&profile_shape(), &mut r, &mut out, cat, version::V_26_3)?;
    Ok(out)
}

// --- single ids ---------------------------------------------------------------------

/// A leading id carried over, or zero where it has no counterpart, with the rest
/// as it stands.
pub open spec fn leading_mapped(native: Seq<u8>, slots: Seq<Option<u32>>) -> Option<Seq<u8>> {
    match wire::take_var_int(native) {
        Some((id, rest)) => Some(
            wire::enc_var_int(
                match mapping::mapped(slots, id) {
                    Some(mapped) => mapped,
                    None => 0i32,
                },
            ) + rest,
        ),
        None => None,
    }
}

pub fn leading_id(native: &[u8], table: &IdMapping) -> (res: Result<Vec<u8>, ReadingError>)
    ensures
        same_result(res, leading_mapped(native@, table@)),
{
    let mut r: &[u8] = native;
    let id: i32 = wire::get_var_int(&mut r)?;
    let mut out: Vec<u8> = Vec::new();
    wire::write_var_int(
        &mut out,
        match table.map_id(id) {
            Some(mapped) => mapped,
            None => 0,
        },
    );
    wire::write_bytes(&mut out, r);
    Ok(out)
}

/// One more, where that is an int.
pub open spec fn next_int(id: Option<i32>) -> Option<i32> {
    match id {
        Some(id) => if id < i32::MAX {
            Some((id + 1) as i32)
        } else {
            None
        },
        None => None,
    }
}

pub fn next(id: Option<i32>) -> (res: Option<i32>)
    ensures
        res == next_int(id),
{
    match id {
        Some(id) => if id < i32::MAX {
            Some(id + 1)
        } else {
            None
        },
        None => None,
    }
}

/// A holder carried over: zero stands before inline data, which is kept; any
/// other number is an id plus one, which needs a counterpart.
pub open spec fn holder_mapped(native: Seq<u8>, slots: Seq<Option<u32>>) -> Option<Seq<u8>> {
    match wire::take_var_int(native) {
        Some((raw, rest)) => if raw == 0 {
            Some(native)
        } else if raw == i32::MIN {
            None
        } else {
            match next_int(mapping::mapped(slots, (raw - 1) as i32)) {
                Some(mapped) => Some(wire::enc_var_int(mapped) + rest),
                None => None,
            }
        },
        None => None,
    }
}

pub fn holder_id(native: &[u8], table: &IdMapping) -> (res: Result<Vec<u8>, ReadingError>)
    ensures
        same_result(res, holder_mapped(native@, table@)),
{
    let mut r: &[u8] = native;
    let raw: i32 = wire::get_var_int(&mut r)?;
    if raw == 0 {
        return Ok(slice_to_vec(native));
    }
    if raw == i32::MIN {
        return Err(ReadingError::Malformed);
    }
    match next(table.map_id(raw - 1)) {
        Some(mapped) => {
            let mut out: Vec<u8> = Vec::new();
            wire::write_var_int(&mut out, mapped);
            wire::write_bytes(&mut out, r);
            Ok(out)
        },
        None => Err(ReadingError::Malformed),
    }
}


// --- adventure predicates ---------------------------------------------------------------

/// Property conditions: a name with an exact value or a range.
#[verifier::allow_in_spec]
pub fn properties_shape() -> Shape
    returns
        (shape::opt(
            shape::array(
                shape::pair(
                    Shape::Str,
                    shape::either(Shape::Str, shape::pair(shape::opt(Shape::Str), shape::opt(Shape::Str))),
                ),
            ),
        )),
{
    shape::opt(
        shape::array(
            shape::pair(
                Shape::Str,
                shape::either(Shape::Str, shape::pair(shape::opt(Shape::Str), shape::opt(Shape::Str))),
            ),
        ),
    )
}

/// The component matchers of a predicate, exact and partial.
#[verifier::allow_in_spec]
pub fn matchers_shape() -> Shape
    returns
        (shape::pair(shape::array(Shape::Component), shape::array(Shape::VarInt))),
{
    shape::pair(shape::array(Shape::Component), shape::array(Shape::VarInt))
}

/// A predicate behind its block set.
#[verifier::allow_in_spec]
pub fn predicate_tail() -> Shape
    returns
        (shape::three(properties_shape(), shape::opt(Shape::Nbt), matchers_shape())),
{
    shape::three(properties_shape(), shape::opt(Shape::Nbt), matchers_shape())
}

/// A predicate before its matchers.
#[verifier::allow_in_spec]
pub fn predicate_head() -> Shape
    returns
        (shape::three(shape::opt(Shape::IdSet), properties_shape(), shape::opt(Shape::Nbt))),
{
    shape::three(shape::opt(Shape::IdSet), properties_shape(), shape::opt(Shape::Nbt))
}

/// `n` ids, those that have a counterpart put behind `kept`.
pub open spec fn take_mapped(kept: Seq<i32>, n: nat, s: Seq<u8>, slots: Seq<Option<u32>>) -> Option<
    (Seq<i32>, Seq<u8>),
>
    decreases n,
{
    if n == 0 {
        Some((kept, s))
    } else {
        match wire::take_var_int(s) {
            Some((id, rest)) => take_mapped(
                match mapping::mapped(slots, id) {
                    Some(mapped) => kept.push(mapped),
                    None => kept,
                },
                (n - 1) as nat,
                rest,
                slots,
            ),
            None => None,
        }
    }
}

/// A block set carried over: a tag is kept by its name, and of single blocks
/// those stay that have a counterpart.
pub open spec fn block_set_mapped(s: Seq<u8>, slots: Seq<Option<u32>>) -> Option<(Seq<u8>, Seq<u8>)> {
    match wire::take_var_int(s) {
        Some((selector, t)) => if selector < 0 || selector > MAX_ENTRIES + 1 {
            None
        } else if selector == 0 {
            shape::after(wire::enc_var_int(0), shape::recode_str(t))
        } else {
            match take_mapped(seq![], (selector - 1) as nat, t, slots) {
                Some((kept, rest)) => Some((wire::enc_len(kept.len() + 1) + types::enc_ids(kept), rest)),
                None => None,
            }
        },
        None => None,
    }
}

#[verifier::opaque]
pub open spec fn predicate_mapped(s: Seq<u8>, slots: Seq<Option<u32>>, cat: &Catalog) -> Option<
    (Seq<u8>, Seq<u8>),
> {
    match wire::take_bool(s) {
        Some((present, t)) => {
            let blocks = if present {
                block_set_mapped(t, slots)
            } else {
                Some((seq![], t))
            };
            match blocks {
                Some((set, u)) => shape::after(
                    wire::enc_bool(present) + set,
                    shape::take_shape(predicate_tail(), u, cat, version::V_26_3),
                ),
                None => None,
            }
        },
        None => None,
    }
}

pub open spec fn predicates_mapped(n: nat, s: Seq<u8>, slots: Seq<Option<u32>>, cat: &Catalog) -> Option<
    (Seq<u8>, Seq<u8>),
>
    decreases n,
{
    if n == 0 {
        Some((seq![], s))
    } else {
        match predicate_mapped(s, slots, cat) {
            Some((out, rest)) => shape::after(out, predicates_mapped((n - 1) as nat, rest, slots, cat)),
            None => None,
        }
    }
}

/// A list of adventure predicates with their blocks carried over.
pub open spec fn block_predicates_mapped(native: Seq<u8>, slots: Seq<Option<u32>>, cat: &Catalog) -> Option<
    Seq<u8>,
> {
    match wire::take_var_int(native) {
        Some((n, s)) => if n < 0 || n > MAX_ENTRIES {
            None
        } else {
            match predicates_mapped(n as nat, s, slots, cat) {
                Some((body, rest)) => if rest.len() == 0 {
                    Some(wire::enc_var_int(n) + body)
                } else {
                    None
                },
                None => None,
            }
        },
        None => None,
    }
}

#[verifier::loop_isolation(false)]
pub fn map_block_id_set(r: &mut &[u8], out: &mut Vec<u8>, table: &IdMapping) -> (res: Result<(), ReadingError>)
    ensures
        match block_set_mapped(old(r)@, table@) {
            Some((bytes, rest)) => res is Ok && final(out)@ == old(out)@ + bytes && final(r)@ == rest,
            None => res is Err,
        },
{
    let selector: i32 = wire::get_var_int(r)?;
    if selector < 0 || selector > 4097 {
        return Err(ReadingError::Malformed);
    }
    if selector == 0 {
        wire::write_var_int(out, 0);
        let name: &[u8] = wire::get_str(r)?;
        wire::write_str(out, name);
        return Ok(());
    }
    let ghost start = r@;
    let mut kept: Vec<i32> = Vec::new();
    let mut left: u32 = (selector - 1) as u32;
    while left > 0
        invariant
            kept@.len() + left <= selector - 1,
            take_mapped(seq![], (selector - 1) as nat, start, table@) == take_mapped(
                kept@,
                left as nat,
                r@,
                table@,
            ),
        decreases left,
    {
        let id: i32 = wire::get_var_int(r)?;
        if let Some(mapped) = table.map_id(id) {
            kept.push(mapped);
        }
        left = left - 1;
    }
    wire::write_len(out, kept.len() + 1);
    types::write_ids(out, &kept);
    Ok(())
}

fn map_predicate(r: &mut &[u8], out: &mut Vec<u8>, ids: &ComposedMappings, cat: &Catalog) -> (res: Result<
    (),
    ReadingError,
>)
    ensures
        match predicate_mapped(old(r)@, ids.blocks@, cat) {
            Some((bytes, rest)) => res is Ok && final(out)@ == old(out)@ + bytes && final(r)@ == rest,
            None => res is Err,
        },
{
    proof {
        reveal(predicate_mapped);
    }
    let present: bool = wire::get_bool(r)?;
    wire::write_bool(out, present);
    if present {
        map_block_id_set(r, out, &ids.blocks)?;
    }
    shape::copy_shape(&predicate_tail(), r, out, cat, version::V_26_3)
}

#[verifier::loop_isolation(false)]
pub fn map_block_predicates(native: &[u8], ids: &ComposedMappings, cat: &Catalog) -> (res: Result<
    Vec<u8>,
    ReadingError,
>)
    ensures
        same_result(res, block_predicates_mapped(native@, ids.blocks@, cat)),
{
    let mut r: &[u8] = native;
    let n: i32 = wire::get_var_int(&mut r)?;
    if n < 0 || n > MAX_ENTRIES {
        return Err(ReadingError::Malformed);
    }
    let ghost start = r@;
    let mut out: Vec<u8> = wire::var_int_bytes(n);
    let ghost head = out@;
    let mut left: i32 = n;
    assert(out@ =~= head + Seq::<u8>::empty());
    while left > 0
        invariant
            0 <= left <= n,
            match predicates_mapped(n as nat, start, ids.blocks@, cat) {
                Some((body, rest)) => predicates_mapped(left as nat, r@, ids.blocks@, cat) matches Some(
                    (more, end),
                ) && end == rest && head + body == out@ + more,
                None => predicates_mapped(left as nat, r@, ids.blocks@, cat) is None,
            },
        decreases left,
    {
        let ghost before = out@;
        let ghost here = r@;
        map_predicate(&mut r, &mut out, ids, cat)?;
        left = left - 1;
        proof {
            let (bytes, rest) = predicate_mapped(here, ids.blocks@, cat)->0;
            if let Some((more, end)) = predicates_mapped(left as nat, r@, ids.blocks@, cat) {
                assert(before + (bytes + more) =~= out@ + more);
            }
        }
    }
    if r.len() != 0 {
        return Err(ReadingError::Malformed);
    }
    Ok(out)
}

/// A predicate without its component matchers, which arrive in 1.21.5.
#[verifier::opaque]
pub open spec fn predicate_adapted(s: Seq<u8>, cat: &Catalog) -> Option<(Seq<u8>, Seq<u8>)> {
    match shape::take_shape(predicate_head(), s, cat, version::V_26_3) {
        Some((out, t)) => match shape::drop_shape(matchers_shape(), t, cat, version::V_26_3) {
            Some(rest) => Some((out, rest)),
            None => None,
        },
        None => None,
    }
}

pub open spec fn predicates_adapted(n: nat, s: Seq<u8>, cat: &Catalog) -> Option<(Seq<u8>, Seq<u8>)>
    decreases n,
{
    if n == 0 {
        Some((seq![], s))
    } else {
        match predicate_adapted(s, cat) {
            Some((out, rest)) => shape::after(out, predicates_adapted((n - 1) as nat, rest, cat)),
            None => None,
        }
    }
}

/// A list of adventure predicates in the layout before 1.21.5, with the tooltip
/// flag that ends it.
pub open spec fn adventure_adapted(native: Seq<u8>, show_in_tooltip: bool, cat: &Catalog) -> Option<Seq<u8>> {
    match wire::take_var_int(native) {
        Some((n, s)) => if n < 0 || n > MAX_ENTRIES {
            None
        } else {
            match predicates_adapted(n as nat, s, cat) {
                Some((body, rest)) => if rest.len() == 0 {
                    Some(wire::enc_var_int(n) + body + wire::enc_bool(show_in_tooltip))
                } else {
                    None
                },
                None => None,
            }
        },
        None => None,
    }
}

fn adapt_predicate(r: &mut &[u8], out: &mut Vec<u8>, cat: &Catalog) -> (res: Result<(), ReadingError>)
    ensures
        match predicate_adapted(old(r)@, cat) {
            Some((bytes, rest)) => res is Ok && final(out)@ == old(out)@ + bytes && final(r)@ == rest,
            None => res is Err,
        },
{
    proof {
        reveal(predicate_adapted);
    }
    shape::copy_shape(&predicate_head(), r, out, cat, version::V_26_3)?;
    shape::skip(&matchers_shape(), r, cat, version::V_26_3)
}

#[verifier::loop_isolation(false)]
pub fn adventure_mode_predicates(native: &[u8], show_in_tooltip: bool, cat: &Catalog) -> (res: Result<
    Vec<u8>,
    ReadingError,
>)
    ensures
        same_result(res, adventure_adapted(native@, show_in_tooltip, cat)),
{
    let mut r: &[u8] = native;
    let n: i32 = wire::get_var_int(&mut r)?;
    if n < 0 || n > MAX_ENTRIES {
        return Err(ReadingError::Malformed);
    }
    let ghost start = r@;
    let mut out: Vec<u8> = wire::var_int_bytes(n);
    let ghost head = out@;
    let mut left: i32 = n;
    assert(out@ =~= head + Seq::<u8>::empty());
    while left > 0
        invariant
            0 <= left <= n,
            match predicates_adapted(n as nat, start, cat) {
                Some((body, rest)) => predicates_adapted(left as nat, r@, cat) matches Some((more, end)) && end
                    == rest && head + body == out@ + more,
                None => predicates_adapted(left as nat, r@, cat) is None,
            },
        decreases left,
    {
        let ghost before = out@;
        let ghost here = r@;
        adapt_predicate(&mut r, &mut out, cat)?;
        left = left - 1;
        proof {
            let (bytes, rest) = predicate_adapted(here, cat)->0;
            if let Some((more, end)) = predicates_adapted(left as nat, r@, cat) {
                assert(before + (bytes + more) =~= out@ + more);
            }
        }
    }
    if r.len() != 0 {
        return Err(ReadingError::Malformed);
    }
    wire::write_bool(&mut out, show_in_tooltip);
    Ok(out)
}

// --- registry entries by name ------------------------------------------------------------

/// The registries that a component's holders point into.
pub open spec fn first_registry(component: DataComponent) -> Option<Seq<u8>> {
    match component {
        DataComponent::Trim => Some(wire::key("trim_material")),
        DataComponent::Instrument => Some(wire::key("instrument")),
        DataComponent::ProvidesTrimMaterial => Some(wire::key("trim_material")),
        _ => None,
    }
}

/// Only a trim has a second holder.
pub open spec fn second_registry(component: DataComponent) -> Option<Seq<u8>> {
    match component {
        DataComponent::Trim => Some(wire::key("trim_pattern")),
        _ => None,
    }
}

fn registry_of(component: DataComponent) -> (res: Option<&'static str>)
    ensures
        match res {
            Some(name) => first_registry(component) == Some(wire::key(name)),
            None => first_registry(component) is None,
        },
{
    match component {
        DataComponent::Trim => Some("trim_material"),
        DataComponent::Instrument => Some("instrument"),
        DataComponent::ProvidesTrimMaterial => Some("trim_material"),
        _ => None,
    }
}

/// A holder carried from one release to another by the name of its entry.
pub open spec fn holder_renamed(
    s: Seq<u8>,
    source: Version,
    target: Version,
    registry: Seq<u8>,
    cat: &Catalog,
) -> Option<(Seq<u8>, Seq<u8>)> {
    match wire::take_var_int(s) {
        Some((holder, rest)) => if holder == i32::MIN {
            None
        } else {
            match catalog::entry_name(cat, source, registry, (holder - 1) as i32) {
                Some(name) => match next_int(catalog::entry_id(cat, target, registry, name)) {
                    Some(id) => Some((wire::enc_var_int(id), rest)),
                    None => None,
                },
                None => None,
            }
        },
        None => None,
    }
}

/// The holders of a component carried over by name, with nothing behind them.
pub open spec fn holders_renamed(
    payload: Seq<u8>,
    source: Version,
    target: Version,
    component: DataComponent,
    cat: &Catalog,
) -> Option<Seq<u8>> {
    match first_registry(component) {
        Some(first) => match holder_renamed(payload, source, target, first, cat) {
            Some((out, s)) => {
                let all = match second_registry(component) {
                    Some(second) => shape::after(out, holder_renamed(s, source, target, second, cat)),
                    None => Some((out, s)),
                };
                match all {
                    Some((out, rest)) => if rest.len() == 0 {
                        Some(out)
                    } else {
                        None
                    },
                    None => None,
                }
            },
            None => None,
        },
        None => None,
    }
}

fn rename_holder(
    r: &mut &[u8],
    out: &mut Vec<u8>,
    source: Version,
    target: Version,
    registry: &[u8],
    cat: &Catalog,
) -> (res: Result<(), ReadingError>)
    ensures
        match holder_renamed(old(r)@, source, target, registry@, cat) {
            Some((bytes, rest)) => res is Ok && final(out)@ == old(out)@ + bytes && final(r)@ == rest,
            None => res is Err,
        },
{
    let holder: i32 = wire::get_var_int(r)?;
    if holder == i32::MIN {
        return Err(ReadingError::Malformed);
    }
    match cat.registry_entry_name(source, registry, holder - 1) {
        Some(name) => match next(cat.registry_entry_id(target, registry, name)) {
            Some(id) => {
                wire::write_var_int(out, id);
                Ok(())
            },
            None => Err(ReadingError::Malformed),
        },
        None => Err(ReadingError::Malformed),
    }
}

pub fn map_holder_ids(
    source: Version,
    target: Version,
    payload: &[u8],
    component: DataComponent,
    cat: &Catalog,
) -> (res: Result<Vec<u8>, ReadingError>)
    ensures
        same_result(res, holders_renamed(payload@, source, target, component, cat)),
{
    let first: &'static str = match registry_of(component) {
        Some(first) => first,
        None => {
            return Err(ReadingError::Malformed);
        },
    };
    let mut r: &[u8] = payload;
    let mut out: Vec<u8> = Vec::new();
    rename_holder(&mut r, &mut out, source, target, first.as_bytes(), cat)?;
    if component == DataComponent::Trim {
        rename_holder(&mut r, &mut out, source, target, "trim_pattern".as_bytes(), cat)?;
    }
    if r.len() != 0 {
        return Err(ReadingError::Malformed);
    }
    Ok(out)
}

/// A holder that was carried to another release by its name comes back.
proof fn lemma_holder_comes_back(
    holder: i32,
    source: Version,
    target: Version,
    registry: Seq<u8>,
    cat: &Catalog,
    rest: Seq<u8>,
    behind: Seq<u8>,
)
    requires
        catalog::has_distinct_names(cat, source, registry),
        holder_renamed(wire::enc_var_int(holder) + rest, source, target, registry, cat) is Some,
    ensures
        ({
            let (out, left) = holder_renamed(wire::enc_var_int(holder) + rest, source, target, registry, cat).unwrap();
            &&& left == rest
            &&& holder_renamed(out + behind, target, source, registry, cat) == Some(
                (wire::enc_var_int(holder), behind),
            )
        }),
{
    wire::var_int_round_trip(holder, rest);
    let name = catalog::entry_name(cat, source, registry, (holder - 1) as i32).unwrap();
    let carried = catalog::entry_id(cat, target, registry, name).unwrap();
    catalog::renamed_entries_come_back(cat, source, target, registry, (holder - 1) as i32);
    wire::var_int_round_trip((carried + 1) as i32, behind);
}

/// The holders of a component, written one after the other.
pub open spec fn written_holders(component: DataComponent, first: i32, second: i32) -> Seq<u8> {
    match second_registry(component) {
        Some(_) => wire::enc_var_int(first) + wire::enc_var_int(second),
        None => wire::enc_var_int(first),
    }
}

/// Holders that were carried to another release by the names of their entries come
/// back as they were, where no two entries of their registries share a name.
pub proof fn renamed_holders_come_back(
    component: DataComponent,
    first: i32,
    second: i32,
    source: Version,
    target: Version,
    cat: &Catalog,
)
    requires
        first_registry(component) matches Some(registry) ==> catalog::has_distinct_names(cat, source, registry),
        second_registry(component) matches Some(registry) ==> catalog::has_distinct_names(cat, source, registry),
        holders_renamed(written_holders(component, first, second), source, target, component, cat) is Some,
    ensures
        holders_renamed(
            holders_renamed(written_holders(component, first, second), source, target, component, cat).unwrap(),
            target,
            source,
            component,
            cat,
        ) == Some(written_holders(component, first, second)),
{
    let registry = first_registry(component).unwrap();
    let none = Seq::<u8>::empty();
    match second_registry(component) {
        Some(other) => {
            let tail = wire::enc_var_int(second);
            assert(tail + none =~= tail);
            let (out, s) = holder_renamed(wire::enc_var_int(first) + tail, source, target, registry, cat).unwrap();
            lemma_holder_comes_back(first, source, target, registry, cat, tail, none);
            assert(s == tail + none);
            let (more, left) = holder_renamed(tail + none, source, target, other, cat).unwrap();
            lemma_holder_comes_back(second, source, target, other, cat, none, none);
            lemma_holder_comes_back(first, source, target, registry, cat, tail, more);
            assert(more + none =~= more);
        },
        None => {
            assert(wire::enc_var_int(first) + none =~= wire::enc_var_int(first));
            lemma_holder_comes_back(first, source, target, registry, cat, none, none);
            let (out, left) = holder_renamed(wire::enc_var_int(first) + none, source, target, registry, cat).unwrap();
            assert(out + none =~= out);
        },
    }
}

/// A payload that is one registry id, carried from one release to another by
/// the name of its entry.
pub open spec fn value_renamed(
    payload: Seq<u8>,
    source: Version,
    target: Version,
    registry: Seq<u8>,
    cat: &Catalog,
) -> Option<Seq<u8>> {
    match wire::take_var_int(payload) {
        Some((id, rest)) => match catalog::entry_name(cat, source, registry, id) {
            Some(name) => match catalog::entry_id(cat, target, registry, name) {
                Some(target_id) => if rest.len() == 0 {
                    Some(wire::enc_var_int(target_id))
                } else {
                    None
                },
                None => None,
            },
            None => None,
        },
        None => None,
    }
}

/// An id that was carried to another release by the name of its entry comes back.
pub proof fn renamed_values_come_back(
    id: i32,
    source: Version,
    target: Version,
    registry: Seq<u8>,
    cat: &Catalog,
)
    requires
        catalog::has_distinct_names(cat, source, registry),
        value_renamed(wire::enc_var_int(id), source, target, registry, cat) is Some,
    ensures
        value_renamed(
            value_renamed(wire::enc_var_int(id), source, target, registry, cat).unwrap(),
            target,
            source,
            registry,
            cat,
        ) == Some(wire::enc_var_int(id)),
{
    let none = Seq::<u8>::empty();
    assert(wire::enc_var_int(id) + none =~= wire::enc_var_int(id));
    wire::var_int_round_trip(id, none);
    catalog::renamed_entries_come_back(cat, source, target, registry, id);
    let name = catalog::entry_name(cat, source, registry, id).unwrap();
    let carried = catalog::entry_id(cat, target, registry, name).unwrap();
    assert(wire::enc_var_int(carried) + none =~= wire::enc_var_int(carried));
    wire::var_int_round_trip(carried, none);
}

pub fn map_registry_value(
    source: Version,
    target: Version,
    payload: &[u8],
    registry: &[u8],
    cat: &Catalog,
) -> (res: Result<Vec<u8>, ReadingError>)
    ensures
        same_result(res, value_renamed(payload@, source, target, registry@, cat)),
{
    let mut r: &[u8] = payload;
    let id: i32 = wire::get_var_int(&mut r)?;
    match cat.registry_entry_name(source, registry, id) {
        Some(name) => match cat.registry_entry_id(target, registry, name) {
            Some(target_id) => if r.len() == 0 {
                Ok(wire::var_int_bytes(target_id))
            } else {
                Err(ReadingError::Malformed)
            },
            None => Err(ReadingError::Malformed),
        },
        None => Err(ReadingError::Malformed),
    }
}

/// A client's payload with its registry ids carried to the server's.
pub open spec fn registry_ids_native(
    component: DataComponent,
    client: Seq<u8>,
    version: Version,
    cat: &Catalog,
) -> Option<Seq<u8>> {
    match component {
        DataComponent::Trim | DataComponent::Instrument | DataComponent::ProvidesTrimMaterial => holders_renamed(
            client,
            version,
            version::V_26_3,
            component,
            cat,
        ),
        DataComponent::JukeboxPlayable => value_renamed(
            client,
            version,
            version::V_26_3,
            wire::key("jukebox_song"),
            cat,
        ),
        _ => Some(client),
    }
}

/// Carries the registry ids of a client's payload to the server's. Payloads
/// without registry ids pass as they stand.
pub fn registry_ids_to_native(component: DataComponent, client: &[u8], version: Version, cat: &Catalog) -> (res:
    Result<Vec<u8>, ReadingError>)
    ensures
        same_result(res, registry_ids_native(component, client@, version, cat)),
{
    match component {
        DataComponent::Trim | DataComponent::Instrument | DataComponent::ProvidesTrimMaterial => map_holder_ids(
            version,
            version::V_26_3,
            client,
            component,
            cat,
        ),
        DataComponent::JukeboxPlayable => map_registry_value(
            version,
            version::V_26_3,
            client,
            "jukebox_song".as_bytes(),
            cat,
        ),
        _ => Ok(slice_to_vec(client)),
    }
}


// --- older holder layouts, towards the client ------------------------------------------------

/// Two holders with nothing behind them, with a tooltip flag up to 1.21.4.
pub open spec fn trim_adapted(native: Seq<u8>, target: Version) -> Option<Seq<u8>> {
    match wire::take_var_int(native) {
        Some((material, s)) => match wire::take_var_int(s) {
            Some((pattern, rest)) => if material <= 0 || pattern <= 0 || rest.len() != 0 {
                None
            } else {
                Some(
                    wire::enc_var_int(material) + wire::enc_var_int(pattern) + (if target
                        <= version::V_1_21_4 {
                        seq![1u8]
                    } else {
                        seq![]
                    }),
                )
            },
            None => None,
        },
        None => None,
    }
}

pub fn legacy_trim(native: &[u8], target: Version) -> (res: Result<Vec<u8>, ReadingError>)
    ensures
        same_result(res, trim_adapted(native@, target)),
{
    let mut r: &[u8] = native;
    let material: i32 = wire::get_var_int(&mut r)?;
    let pattern: i32 = wire::get_var_int(&mut r)?;
    if material <= 0 || pattern <= 0 || r.len() != 0 {
        return Err(ReadingError::Malformed);
    }
    let mut out: Vec<u8> = wire::var_int_bytes(material);
    wire::write_var_int(&mut out, pattern);
    if target <= version::V_1_21_4 {
        out.push(1);
    }
    Ok(out)
}

/// In 1.21.5 a flag before a holder tells it from a name.
pub open spec fn holder_arm(target: Version) -> Seq<u8> {
    if target == version::V_1_21_5 {
        seq![1u8]
    } else {
        seq![]
    }
}

/// One holder with nothing behind it.
pub open spec fn instrument_adapted(native: Seq<u8>, target: Version) -> Option<Seq<u8>> {
    match wire::take_var_int(native) {
        Some((holder, rest)) => if rest.len() != 0 {
            None
        } else {
            Some(holder_arm(target) + wire::enc_var_int(holder))
        },
        None => None,
    }
}

pub fn legacy_instrument(native: &[u8], target: Version) -> (res: Result<Vec<u8>, ReadingError>)
    ensures
        same_result(res, instrument_adapted(native@, target)),
{
    let mut r: &[u8] = native;
    let holder: i32 = wire::get_var_int(&mut r)?;
    if r.len() != 0 {
        return Err(ReadingError::Malformed);
    }
    let mut out: Vec<u8> = Vec::new();
    if target == version::V_1_21_5 {
        out.push(1);
    }
    wire::write_var_int(&mut out, holder);
    Ok(out)
}

/// One holder of a known entry with nothing behind it.
pub open spec fn trim_material_adapted(native: Seq<u8>, target: Version) -> Option<Seq<u8>> {
    match wire::take_var_int(native) {
        Some((holder, rest)) => if holder <= 0 {
            None
        } else {
            instrument_adapted(native, target)
        },
        None => None,
    }
}

pub fn legacy_provides_trim_material(native: &[u8], target: Version) -> (res: Result<Vec<u8>, ReadingError>)
    ensures
        same_result(res, trim_material_adapted(native@, target)),
{
    let mut r: &[u8] = native;
    let holder: i32 = wire::get_var_int(&mut r)?;
    if holder <= 0 {
        return Err(ReadingError::Malformed);
    }
    legacy_instrument(native, target)
}

/// A song id before 26.2: a flag for the holder, the id plus one, and a tooltip
/// flag up to 1.21.4. Before 1.21 there is no such component.
pub open spec fn jukebox_adapted(native: Seq<u8>, target: Version) -> Option<Seq<u8>> {
    if target < version::V_1_21 {
        None
    } else {
        match wire::take_var_int(native) {
            Some((id, rest)) => if rest.len() != 0 {
                None
            } else {
                match next_int(Some(id)) {
                    Some(holder) => Some(
                        seq![1u8] + wire::enc_var_int(holder) + (if target <= version::V_1_21_4 {
                            seq![1u8]
                        } else {
                            seq![]
                        }),
                    ),
                    None => None,
                }
            },
            None => None,
        }
    }
}

fn legacy_jukebox_playable(native: &[u8], target: Version) -> (res: Option<Vec<u8>>)
    ensures
        same_option(res, jukebox_adapted(native@, target)),
{
    if target < version::V_1_21 {
        return None;
    }
    let mut r: &[u8] = native;
    match wire::get_var_int(&mut r) {
        Ok(id) => {
            if r.len() != 0 {
                return None;
            }
            match next(Some(id)) {
                Some(holder) => {
                    let mut out: Vec<u8> = Vec::new();
                    out.push(1);
                    wire::write_var_int(&mut out, holder);
                    if target <= version::V_1_21_4 {
                        out.push(1);
                    }
                    Some(out)
                },
                None => None,
            }
        },
        Err(_) => None,
    }
}

// --- older holder layouts, back from the client ------------------------------------------------

/// What a client's payload becomes where it ends: nothing may stand behind a
/// payload that has its own bounds.
pub open spec fn bounded_end(
    value: Option<Seq<u8>>,
    rest: Seq<u8>,
    bounded: bool,
) -> Option<(Option<Seq<u8>>, Seq<u8>)> {
    if bounded && rest.len() != 0 {
        None
    } else {
        Some((value, rest))
    }
}

pub open spec fn same_payload(
    res: Result<Option<Vec<u8>>, ReadingError>,
    after: Seq<u8>,
    wanted: Option<(Option<Seq<u8>>, Seq<u8>)>,
) -> bool {
    match wanted {
        Some((value, rest)) => res is Ok && same_option(res->Ok_0, value) && after == rest,
        None => res is Err,
    }
}

/// A song that is spelled out: its sound, its text, its length, its signal.
#[verifier::allow_in_spec]
pub fn inline_song_shape() -> Shape
    returns
        (shape::four(shape::sound(), Shape::Nbt, Shape::Fixed(4), Shape::VarInt)),
{
    shape::four(shape::sound(), Shape::Nbt, Shape::Fixed(4), Shape::VarInt)
}

/// The server's id of a client's song: none for a song that is spelled out or
/// that the server does not know.
pub open spec fn song_native(s: Seq<u8>, version: Version, cat: &Catalog) -> Option<(Option<i32>, Seq<u8>)> {
    match wire::take_bool(s) {
        Some((is_holder, t)) => if is_holder {
            match wire::take_var_int(t) {
                Some((holder, u)) => if holder == 0 {
                    match shape::drop_shape(inline_song_shape(), u, cat, version) {
                        Some(rest) => Some((None, rest)),
                        None => None,
                    }
                } else if holder == i32::MIN {
                    None
                } else {
                    match catalog::entry_name(cat, version, wire::key("jukebox_song"), (holder - 1) as i32) {
                        Some(name) => Some(
                            (
                                catalog::entry_id(
                                    cat,
                                    version::V_26_3,
                                    wire::key("jukebox_song"),
                                    name,
                                ),
                                u,
                            ),
                        ),
                        None => None,
                    }
                },
                None => None,
            }
        } else {
            match wire::take_str(t) {
                Some((name, rest)) => Some(
                    (
                        catalog::entry_id(
                            cat,
                            version::V_26_3,
                            wire::key("jukebox_song"),
                            text::bare(name),
                        ),
                        rest,
                    ),
                ),
                None => None,
            }
        },
        None => None,
    }
}

/// A client's song component in the server's layout.
pub open spec fn jukebox_native(s: Seq<u8>, version: Version, bounded: bool, cat: &Catalog) -> Option<
    (Option<Seq<u8>>, Seq<u8>),
> {
    match song_native(s, version, cat) {
        Some((id, t)) => {
            let end = if version <= version::V_1_21_4 {
                nbt::drop_bytes(t, 1)
            } else {
                Some(t)
            };
            match end {
                Some(rest) => bounded_end(
                    match id {
                        Some(id) => Some(wire::enc_var_int(id)),
                        None => None,
                    },
                    rest,
                    bounded,
                ),
                None => None,
            }
        },
        None => None,
    }
}

fn read_song(r: &mut &[u8], version: Version, cat: &Catalog) -> (res: Result<Option<i32>, ReadingError>)
    ensures
        match song_native(old(r)@, version, cat) {
            Some((id, rest)) => res == Ok::<Option<i32>, ReadingError>(id) && final(r)@ == rest,
            None => res is Err,
        },
{
    let is_holder: bool = wire::get_bool(r)?;
    if is_holder {
        let holder: i32 = wire::get_var_int(r)?;
        if holder == 0 {
            shape::skip(&inline_song_shape(), r, cat, version)?;
            Ok(None)
        } else if holder == i32::MIN {
            Err(ReadingError::Malformed)
        } else {
            match cat.registry_entry_name(version, "jukebox_song".as_bytes(), holder - 1) {
                Some(name) => Ok(
                    cat.registry_entry_id(version::V_26_3, "jukebox_song".as_bytes(), name),
                ),
                None => Err(ReadingError::Malformed),
            }
        }
    } else {
        let name: &[u8] = wire::get_str(r)?;
        Ok(cat.registry_entry_id(version::V_26_3, "jukebox_song".as_bytes(), text::bare_name(name)))
    }
}

/// Reads a song component of an older layout. Songs that are spelled out are
/// read past and come to nothing.
pub fn legacy_jukebox_playable_to_native(
    r: &mut &[u8],
    version: Version,
    bounded: bool,
    cat: &Catalog,
) -> (res: Result<Option<Vec<u8>>, ReadingError>)
    ensures
        same_payload(res, final(r)@, jukebox_native(old(r)@, version, bounded, cat)),
{
    let id: Option<i32> = read_song(r, version, cat)?;
    if version <= version::V_1_21_4 {
        wire::get_bytes(r, 1)?;
    }
    if bounded && r.len() != 0 {
        return Err(ReadingError::Malformed);
    }
    match id {
        Some(id) => Ok(Some(wire::var_int_bytes(id))),
        None => Ok(None),
    }
}

/// An instrument that is spelled out.
#[verifier::allow_in_spec]
pub fn inline_instrument_shape() -> Shape
    returns
        (shape::four(shape::sound(), Shape::Fixed(4), Shape::Fixed(4), Shape::Nbt)),
{
    shape::four(shape::sound(), Shape::Fixed(4), Shape::Fixed(4), Shape::Nbt)
}

/// The item id that a spelled out trim carries before 1.21.5.
pub open spec fn inline_item_shape(version: Version) -> Shape {
    if version < version::V_1_21_5 {
        Shape::VarInt
    } else {
        Shape::Empty
    }
}

/// A trim pattern that is spelled out.
pub open spec fn inline_pattern_shape(version: Version) -> Shape {
    shape::four(Shape::Str, inline_item_shape(version), Shape::Nbt, Shape::Bool)
}

/// A trim material that is spelled out.
pub open spec fn inline_material_shape(version: Version) -> Shape {
    shape::four(
        Shape::Str,
        inline_item_shape(version),
        if version <= version::V_1_21_2 {
            Shape::Fixed(4)
        } else {
            Shape::Empty
        },
        shape::pair(
            shape::upto(
                MAX_ENTRIES,
                shape::pair(
                    if version <= version::V_1_21 {
                        Shape::VarInt
                    } else {
                        Shape::Str
                    },
                    Shape::Str,
                ),
            ),
            Shape::Nbt,
        ),
    )
}

/// An entry that is spelled out in place of a holder.
pub open spec fn inline_shape(component: DataComponent, is_pattern: bool, version: Version) -> Shape {
    if component == DataComponent::Instrument {
        inline_instrument_shape()
    } else if is_pattern {
        inline_pattern_shape(version)
    } else {
        inline_material_shape(version)
    }
}

fn new_inline_shape(component: DataComponent, is_pattern: bool, version: Version) -> (res: Shape)
    ensures
        res == inline_shape(component, is_pattern, version),
{
    if component == DataComponent::Instrument {
        return inline_instrument_shape();
    }
    let item: Shape = if version < version::V_1_21_5 {
        Shape::VarInt
    } else {
        Shape::Empty
    };
    if is_pattern {
        return shape::four(Shape::Str, item, Shape::Nbt, Shape::Bool);
    }
    let index: Shape = if version <= version::V_1_21_2 {
        Shape::Fixed(4)
    } else {
        Shape::Empty
    };
    let armor: Shape = if version <= version::V_1_21 {
        Shape::VarInt
    } else {
        Shape::Str
    };
    shape::four(
        Shape::Str,
        item,
        index,
        shape::pair(shape::upto(MAX_ENTRIES, shape::pair(armor, Shape::Str)), Shape::Nbt),
    )
}

/// In 1.21.5 an instrument or a trim material may stand as a name.
pub open spec fn may_be_named(component: DataComponent, version: Version) -> bool {
    version == version::V_1_21_5 && (component == DataComponent::Instrument || component
        == DataComponent::ProvidesTrimMaterial)
}

/// The server's holder for a client's holder or spelled out entry: none for an
/// entry that is spelled out.
pub open spec fn holder_native(
    s: Seq<u8>,
    component: DataComponent,
    is_pattern: bool,
    registry: Seq<u8>,
    version: Version,
    cat: &Catalog,
) -> Option<(Option<i32>, Seq<u8>)> {
    match wire::take_var_int(s) {
        Some((holder, t)) => if holder == 0 {
            match shape::drop_shape(inline_shape(component, is_pattern, version), t, cat, version) {
                Some(rest) => Some((None, rest)),
                None => None,
            }
        } else if holder == i32::MIN {
            None
        } else {
            match catalog::entry_name(cat, version, registry, (holder - 1) as i32) {
                Some(name) => match next_int(catalog::entry_id(cat, version::V_26_3, registry, name)) {
                    Some(id) => Some((Some(id), t)),
                    None => None,
                },
                None => None,
            }
        },
        None => None,
    }
}

/// The server's holder for whatever a client may send in its place.
#[verifier::opaque]
pub open spec fn entry_native(
    s: Seq<u8>,
    component: DataComponent,
    is_pattern: bool,
    registry: Seq<u8>,
    version: Version,
    cat: &Catalog,
) -> Option<(Option<i32>, Seq<u8>)> {
    if may_be_named(component, version) {
        match wire::take_bool(s) {
            Some((is_holder, t)) => if is_holder {
                holder_native(t, component, is_pattern, registry, version, cat)
            } else {
                match wire::take_str(t) {
                    Some((name, rest)) => match next_int(
                        catalog::entry_id(cat, version::V_26_3, registry, text::bare(name)),
                    ) {
                        Some(id) => Some((Some(id), rest)),
                        None => None,
                    },
                    None => None,
                }
            },
            None => None,
        }
    } else {
        holder_native(s, component, is_pattern, registry, version, cat)
    }
}

/// Both holders, or the one of a component that has one, as the server writes
/// them.
pub open spec fn enc_holders(first: Option<i32>, second: Option<Option<i32>>) -> Option<Seq<u8>> {
    match first {
        Some(a) => match second {
            None => Some(wire::enc_var_int(a)),
            Some(Some(b)) => Some(wire::enc_var_int(a) + wire::enc_var_int(b)),
            Some(None) => None,
        },
        None => None,
    }
}

/// A client's holder component in the server's layout: nothing where an entry is
/// spelled out.
pub open spec fn registry_component_native(
    component: DataComponent,
    s: Seq<u8>,
    version: Version,
    bounded: bool,
    cat: &Catalog,
) -> Option<(Option<Seq<u8>>, Seq<u8>)> {
    match first_registry(component) {
        Some(registry) => match entry_native(s, component, false, registry, version, cat) {
            Some((first, t)) => if component == DataComponent::Trim {
                match entry_native(t, component, true, wire::key("trim_pattern"), version, cat) {
                    Some((second, u)) => {
                        let end = if version <= version::V_1_21_4 {
                            nbt::drop_bytes(u, 1)
                        } else {
                            Some(u)
                        };
                        match end {
                            Some(rest) => bounded_end(enc_holders(first, Some(second)), rest, bounded),
                            None => None,
                        }
                    },
                    None => None,
                }
            } else {
                bounded_end(enc_holders(first, None), t, bounded)
            },
            None => None,
        },
        None => None,
    }
}

fn read_entry(
    r: &mut &[u8],
    component: DataComponent,
    is_pattern: bool,
    registry: &[u8],
    version: Version,
    cat: &Catalog,
) -> (res: Result<Option<i32>, ReadingError>)
    ensures
        match entry_native(old(r)@, component, is_pattern, registry@, version, cat) {
            Some((id, rest)) => res == Ok::<Option<i32>, ReadingError>(id) && final(r)@ == rest,
            None => res is Err,
        },
{
    proof {
        reveal(entry_native);
    }
    if version == version::V_1_21_5 && (component == DataComponent::Instrument || component
        == DataComponent::ProvidesTrimMaterial) {
        let is_holder: bool = wire::get_bool(r)?;
        if !is_holder {
            let name: &[u8] = wire::get_str(r)?;
            let id: Option<i32> = next(
                cat.registry_entry_id(version::V_26_3, registry, text::bare_name(name)),
            );
            if id.is_none() {
                return Err(ReadingError::Malformed);
            }
            return Ok(id);
        }
    }
    let holder: i32 = wire::get_var_int(r)?;
    if holder == 0 {
        shape::skip(&new_inline_shape(component, is_pattern, version), r, cat, version)?;
        return Ok(None);
    }
    if holder == i32::MIN {
        return Err(ReadingError::Malformed);
    }
    match cat.registry_entry_name(version, registry, holder - 1) {
        Some(name) => {
            let id: Option<i32> = next(cat.registry_entry_id(version::V_26_3, registry, name));
            if id.is_none() {
                return Err(ReadingError::Malformed);
            }
            Ok(id)
        },
        None => Err(ReadingError::Malformed),
    }
}

/// Reads a holder component of an older layout. Entries that are spelled out are
/// read past and come to nothing.
pub fn legacy_registry_component_to_native(
    component: DataComponent,
    r: &mut &[u8],
    version: Version,
    bounded: bool,
    cat: &Catalog,
) -> (res: Result<Option<Vec<u8>>, ReadingError>)
    ensures
        same_payload(res, final(r)@, registry_component_native(component, old(r)@, version, bounded, cat)),
{
    let registry: &'static str = match registry_of(component) {
        Some(registry) => registry,
        None => {
            return Err(ReadingError::Malformed);
        },
    };
    let first: Option<i32> = read_entry(r, component, false, registry.as_bytes(), version, cat)?;
    let mut second: Option<i32> = None;
    let is_trim: bool = component == DataComponent::Trim;
    if is_trim {
        second = read_entry(r, component, true, "trim_pattern".as_bytes(), version, cat)?;
        if version <= version::V_1_21_4 {
            wire::get_bytes(r, 1)?;
        }
    }
    if bounded && r.len() != 0 {
        return Err(ReadingError::Malformed);
    }
    match first {
        Some(a) => {
            let mut out: Vec<u8> = wire::var_int_bytes(a);
            if is_trim {
                match second {
                    Some(b) => {
                        wire::write_var_int(&mut out, b);
                    },
                    None => {
                        return Ok(None);
                    },
                }
            }
            Ok(Some(out))
        },
        None => Ok(None),
    }
}

// --- map decorations ----------------------------------------------------------------------------

/// The decoration types that arrive in 26.3.
pub open spec fn is_new_decoration(name: Seq<u8>) -> bool {
    ||| name == wire::key("abandoned_camp")
    ||| name == wire::key("ancient_city")
    ||| name == wire::key("desert_pyramid")
    ||| name == wire::key("mineshaft")
    ||| name == wire::key("ocean_ruin_warm")
}

/// A decoration with a type that 26.2 knows.
pub open spec fn decoration_downgraded(e: Entry) -> Entry {
    match nbt::compound_of(e.tag) {
        Some(c) => match nbt::string_in(c, wire::key("type")) {
            Some(name) => if is_new_decoration(name) {
                Entry {
                    name: e.name,
                    tag: nbt::compound_tag(
                        nbt::put(c, wire::key("type"), nbt::string_tag(wire::key("village_plains"))),
                    ),
                }
            } else {
                e
            },
            None => e,
        },
        None => e,
    }
}

/// Map decorations with types that 26.2 knows: each new type becomes the nearest
/// one, and whatever else an entry holds stays.
pub open spec fn decorations_downgraded(native: Seq<u8>) -> Option<Seq<u8>> {
    match nbt::take_nbt(native, false) {
        Some((Some(tag), rest)) => match nbt::compound_of(tag) {
            Some(c) => if rest.len() == 0 {
                Some(
                    nbt::enc_nbt(
                        Some(nbt::compound_tag(Seq::new(c.len(), |i: int| decoration_downgraded(c[i])))),
                        false,
                    ),
                )
            } else {
                None
            },
            None => None,
        },
        _ => None,
    }
}

fn is_new(name: &[u8]) -> (res: bool)
    ensures
        res == is_new_decoration(name@),
{
    wire::same_bytes(name, "abandoned_camp".as_bytes()) || wire::same_bytes(name, "ancient_city".as_bytes())
        || wire::same_bytes(name, "desert_pyramid".as_bytes()) || wire::same_bytes(
        name,
        "mineshaft".as_bytes(),
    ) || wire::same_bytes(name, "ocean_ruin_warm".as_bytes())
}

fn downgrade_decoration(e: &nbt::NbtEntry) -> (res: nbt::NbtEntry)
    ensures
        res@ == decoration_downgraded(e@),
{
    if let Some(c) = e.tag.extract_compound() {
        if let Some(name) = c.get_string("type".as_bytes()) {
            if is_new(name.as_slice()) {
                let mut c: NbtCompound = c;
                c.put_string("type".as_bytes(), "village_plains".as_bytes());
                return nbt::NbtEntry { name: e.name.clone(), tag: c.to_tag() };
            }
        }
    }
    nbt::NbtEntry { name: e.name.clone(), tag: e.tag.copy() }
}

pub fn map_decoration_types(native: &[u8]) -> (res: Result<Vec<u8>, ReadingError>)
    ensures
        same_result(res, decorations_downgraded(native@)),
{
    let mut r: &[u8] = native;
    let tag: Option<NbtTag> = nbt::get_nbt(&mut r, false)?;
    let tag: NbtTag = match tag {
        Some(tag) => tag,
        None => {
            return Err(ReadingError::Malformed);
        },
    };
    let decorations: NbtCompound = match tag.extract_compound() {
        Some(c) => c,
        None => {
            return Err(ReadingError::Malformed);
        },
    };
    if r.len() != 0 {
        return Err(ReadingError::Malformed);
    }
    let mut entries: Vec<nbt::NbtEntry> = Vec::new();
    let mut i: usize = 0;
    while i < decorations.entries.len()
        invariant
            i <= decorations.entries.len(),
            entries@.len() == i,
            forall|j: int| 0 <= j < i ==> (#[trigger] entries@[j])@ == decoration_downgraded(decorations@[j]),
        decreases decorations.entries.len() - i,
    {
        assert(decorations@[i as int] == decorations.entries@[i as int]@);
        entries.push(downgrade_decoration(&decorations.entries[i]));
        i = i + 1;
    }
    let mapped: NbtCompound = NbtCompound { entries };
    assert(mapped@ =~= Seq::new(decorations@.len(), |i: int| decoration_downgraded(decorations@[i])));
    let mut out: Vec<u8> = Vec::new();
    nbt::write_nbt(&mut out, &mapped.to_tag(), false);
    Ok(out)
}

// --- consume effects ------------------------------------------------------------------------------

/// What a consumable carries before its effects.
#[verifier::allow_in_spec]
pub fn consumable_head() -> Shape
    returns
        (shape::four(Shape::Fixed(4), Shape::VarInt, shape::sound(), Shape::Bool)),
{
    shape::four(Shape::Fixed(4), Shape::VarInt, shape::sound(), Shape::Bool)
}

/// Status effects with the chance of getting them.
#[verifier::allow_in_spec]
pub fn apply_effects_shape() -> Shape
    returns
        (shape::pair(shape::status_effects(), Shape::Fixed(4))),
{
    shape::pair(shape::status_effects(), Shape::Fixed(4))
}

/// The fields of a consume effect behind its kind. A teleport carries a flag for
/// directional particles from 26.3 on; older clients take it as set.
pub open spec fn effect_tail(s: Seq<u8>, kind: i32, has_flag: bool, writes_flag: bool, cat: &Catalog) -> Option<
    (Seq<u8>, Seq<u8>),
> {
    if kind == 0 {
        shape::take_shape(apply_effects_shape(), s, cat, version::V_26_3)
    } else if kind == 1 {
        shape::take_shape(Shape::IdSet, s, cat, version::V_26_3)
    } else if kind == 2 {
        Some((seq![], s))
    } else if kind == 3 {
        match wire::take_bytes(s, 4) {
            Some((diameter, t)) => if has_flag {
                match wire::take_bool(t) {
                    Some((flag, rest)) => Some(
                        (
                            diameter + (if writes_flag {
                                wire::enc_bool(flag)
                            } else {
                                seq![]
                            }),
                            rest,
                        ),
                    ),
                    None => None,
                }
            } else {
                Some(
                    (
                        diameter + (if writes_flag {
                            wire::enc_bool(true)
                        } else {
                            seq![]
                        }),
                        t,
                    ),
                )
            },
            None => None,
        }
    } else if kind == 4 {
        shape::take_shape(shape::sound(), s, cat, version::V_26_3)
    } else {
        None
    }
}

pub fn copy_consume_effect_tail(
    r: &mut &[u8],
    out: &mut Vec<u8>,
    kind: i32,
    has_flag: bool,
    writes_flag: bool,
    cat: &Catalog,
) -> (res: Result<(), ReadingError>)
    ensures
        match effect_tail(old(r)@, kind, has_flag, writes_flag, cat) {
            Some((bytes, rest)) => res is Ok && final(out)@ == old(out)@ + bytes && final(r)@ == rest,
            None => res is Err,
        },
{
    if kind == 0 {
        shape::copy_shape(&apply_effects_shape(), r, out, cat, version::V_26_3)
    } else if kind == 1 {
        shape::copy_shape(&Shape::IdSet, r, out, cat, version::V_26_3)
    } else if kind == 2 {
        Ok(())
    } else if kind == 3 {
        let diameter: &[u8] = wire::get_bytes(r, 4)?;
        wire::write_bytes(out, diameter);
        if has_flag {
            let flag: bool = wire::get_bool(r)?;
            if writes_flag {
                wire::write_bool(out, flag);
            }
        } else if writes_flag {
            wire::write_bool(out, true);
        }
        Ok(())
    } else if kind == 4 {
        shape::copy_shape(&shape::sound(), r, out, cat, version::V_26_3)
    } else {
        Err(ReadingError::Malformed)
    }
}

/// One consume effect: its kind, then its fields.
#[verifier::opaque]
pub open spec fn effect_copied(s: Seq<u8>, has_flag: bool, writes_flag: bool, cat: &Catalog) -> Option<
    (Seq<u8>, Seq<u8>),
> {
    match wire::take_var_int(s) {
        Some((kind, t)) => shape::after(
            wire::enc_var_int(kind),
            effect_tail(t, kind, has_flag, writes_flag, cat),
        ),
        None => None,
    }
}

pub open spec fn effects_copied(n: nat, s: Seq<u8>, has_flag: bool, writes_flag: bool, cat: &Catalog) -> Option<
    (Seq<u8>, Seq<u8>),
>
    decreases n,
{
    if n == 0 {
        Some((seq![], s))
    } else {
        match effect_copied(s, has_flag, writes_flag, cat) {
            Some((out, rest)) => shape::after(
                out,
                effects_copied((n - 1) as nat, rest, has_flag, writes_flag, cat),
            ),
            None => None,
        }
    }
}

/// What stands before the effects of a component that has them.
pub open spec fn effects_head(component: DataComponent, native: Seq<u8>, cat: &Catalog) -> Option<
    (Seq<u8>, Seq<u8>),
> {
    if component == DataComponent::Consumable {
        shape::take_shape(consumable_head(), native, cat, version::V_26_3)
    } else if component == DataComponent::DeathProtection {
        Some((seq![], native))
    } else {
        None
    }
}

/// A component with consume effects, with the flag of its teleports read where
/// the source has it and written where the target has it.
pub open spec fn consume_effects_copied(
    component: DataComponent,
    native: Seq<u8>,
    has_flag: bool,
    writes_flag: bool,
    cat: &Catalog,
) -> Option<Seq<u8>> {
    match effects_head(component, native, cat) {
        Some((head, s)) => match wire::take_var_int(s) {
            Some((n, t)) => if n < 0 || n > MAX_ENTRIES {
                None
            } else {
                match effects_copied(n as nat, t, has_flag, writes_flag, cat) {
                    Some((body, rest)) => if rest.len() == 0 {
                        Some(head + wire::enc_var_int(n) + body)
                    } else {
                        None
                    },
                    None => None,
                }
            },
            None => None,
        },
        None => None,
    }
}

fn copy_consume_effect(r: &mut &[u8], out: &mut Vec<u8>, has_flag: bool, writes_flag: bool, cat: &Catalog) -> (res:
    Result<(), ReadingError>)
    ensures
        match effect_copied(old(r)@, has_flag, writes_flag, cat) {
            Some((bytes, rest)) => res is Ok && final(out)@ == old(out)@ + bytes && final(r)@ == rest,
            None => res is Err,
        },
{
    proof {
        reveal(effect_copied);
    }
    let kind: i32 = wire::get_var_int(r)?;
    wire::write_var_int(out, kind);
    copy_consume_effect_tail(r, out, kind, has_flag, writes_flag, cat)
}

#[verifier::loop_isolation(false)]
pub fn consume_effect_payload(
    component: DataComponent,
    native: &[u8],
    has_flag: bool,
    writes_flag: bool,
    cat: &Catalog,
) -> (res: Result<Vec<u8>, ReadingError>)
    ensures
        same_result(res, consume_effects_copied(component, native@, has_flag, writes_flag, cat)),
{
    let mut r: &[u8] = native;
    let mut out: Vec<u8> = Vec::new();
    if component == DataComponent::Consumable {
        shape::copy_shape(&consumable_head(), &mut r, &mut out, cat, version::V_26_3)?;
    } else if component != DataComponent::DeathProtection {
        return Err(ReadingError::Malformed);
    }
    assert(out@ =~= effects_head(component, native@, cat).unwrap().0);
    let n: i32 = wire::get_var_int(&mut r)?;
    if n < 0 || n > MAX_ENTRIES {
        return Err(ReadingError::Malformed);
    }
    wire::write_var_int(&mut out, n);
    let ghost start = r@;
    let ghost head = out@;
    let mut left: i32 = n;
    assert(out@ =~= head + Seq::<u8>::empty());
    while left > 0
        invariant
            0 <= left <= n,
            match effects_copied(n as nat, start, has_flag, writes_flag, cat) {
                Some((body, rest)) => effects_copied(left as nat, r@, has_flag, writes_flag, cat) matches Some(
                    (more, end),
                ) && end == rest && head + body == out@ + more,
                None => effects_copied(left as nat, r@, has_flag, writes_flag, cat) is None,
            },
        decreases left,
    {
        let ghost before = out@;
        let ghost here = r@;
        copy_consume_effect(&mut r, &mut out, has_flag, writes_flag, cat)?;
        left = left - 1;
        proof {
            let (bytes, rest) = effect_copied(here, has_flag, writes_flag, cat)->0;
            if let Some((more, end)) = effects_copied(left as nat, r@, has_flag, writes_flag, cat) {
                assert(before + (bytes + more) =~= out@ + more);
            }
        }
    }
    if r.len() != 0 {
        return Err(ReadingError::Malformed);
    }
    Ok(out)
}

/// A client's consume effects in the server's layout.
pub open spec fn consume_effects_native(
    component: DataComponent,
    client: Seq<u8>,
    source: Version,
    cat: &Catalog,
) -> Option<Seq<u8>> {
    if source >= version::V_26_3 {
        Some(client)
    } else {
        consume_effects_copied(component, client, false, true, cat)
    }
}

/// Brings a client's consume effects to the server's layout.
pub fn consume_effects_to_native(component: DataComponent, client: &[u8], source: Version, cat: &Catalog) -> (res:
    Result<Vec<u8>, ReadingError>)
    ensures
        same_result(res, consume_effects_native(component, client@, source, cat)),
{
    if source >= version::V_26_3 {
        return Ok(slice_to_vec(client));
    }
    consume_effect_payload(component, client, false, true, cat)
}

// --- custom model data ------------------------------------------------------------------------------

/// The int of a model component that holds one whole float and nothing else.
pub open spec fn model_value(native: Seq<u8>) -> Option<i32> {
    match wire::take_var_int(native) {
        Some((n, s)) => if n != 1 {
            None
        } else {
            match wire::take_u32(s) {
                Some((bits, t)) => match wire::take_var_int(t) {
                    Some((flags, u)) => match wire::take_var_int(u) {
                        Some((strings, v)) => match wire::take_var_int(v) {
                            Some((colors, rest)) => if flags == 0 && strings == 0 && colors == 0 && rest.len()
                                == 0 {
                                number::whole(bits)
                            } else {
                                None
                            },
                            None => None,
                        },
                        None => None,
                    },
                    None => None,
                },
                None => None,
            }
        },
        None => None,
    }
}

/// The int of a model component that holds one whole float and nothing else.
pub fn legacy_custom_model_data(native: &[u8]) -> (res: Option<i32>)
    ensures
        res == model_value(native@),
{
    let mut r: &[u8] = native;
    let n: i32 = match wire::get_var_int(&mut r) {
        Ok(n) => n,
        Err(_) => {
            return None;
        },
    };
    if n != 1 {
        return None;
    }
    let bits: u32 = match wire::get_u32(&mut r) {
        Ok(bits) => bits,
        Err(_) => {
            return None;
        },
    };
    let flags: i32 = match wire::get_var_int(&mut r) {
        Ok(n) => n,
        Err(_) => {
            return None;
        },
    };
    let strings: i32 = match wire::get_var_int(&mut r) {
        Ok(n) => n,
        Err(_) => {
            return None;
        },
    };
    let colors: i32 = match wire::get_var_int(&mut r) {
        Ok(n) => n,
        Err(_) => {
            return None;
        },
    };
    if flags == 0 && strings == 0 && colors == 0 && r.len() == 0 {
        number::whole_from_bits(bits)
    } else {
        None
    }
}

/// A model component that holds one int as a float.
pub open spec fn enc_model(value: i32) -> Seq<u8> {
    wire::enc_var_int(1) + wire::enc_u32(number::nearest(value)) + wire::enc_var_int(0) + wire::enc_var_int(0)
        + wire::enc_var_int(0)
}

pub fn model_payload(value: i32) -> (res: Vec<u8>)
    ensures
        res@ == enc_model(value),
{
    let mut out: Vec<u8> = wire::var_int_bytes(1);
    wire::write_u32(&mut out, number::bits_from_int(value));
    wire::write_var_int(&mut out, 0);
    wire::write_var_int(&mut out, 0);
    wire::write_var_int(&mut out, 0);
    out
}

// --- older layouts ------------------------------------------------------------------------------------

/// A payload, its ids already carried over, in the layout of a release that has
/// another one than the server; nothing where that release cannot express it.
pub open spec fn adapted(
    component: DataComponent,
    native: Seq<u8>,
    target: Version,
    show_in_tooltip: bool,
    cat: &Catalog,
) -> Option<Seq<u8>> {
    match component {
        DataComponent::Unbreakable => Some(seq![1u8]),
        DataComponent::Enchantments | DataComponent::StoredEnchantments | DataComponent::DyedColor => Some(
            native.push(1),
        ),
        DataComponent::Tool => Some(
            if native.len() == 0 {
                native
            } else {
                native.drop_last()
            },
        ),
        DataComponent::JukeboxPlayable => jukebox_adapted(native, target),
        DataComponent::AttributeModifiers => attribute_modifiers_adapted(native, target),
        DataComponent::Trim => trim_adapted(native, target),
        DataComponent::Instrument => instrument_adapted(native, target),
        DataComponent::ProvidesTrimMaterial => trim_material_adapted(native, target),
        DataComponent::CustomModelData => match model_value(native) {
            Some(value) => Some(wire::enc_var_int(value)),
            None => None,
        },
        DataComponent::Equippable => equippable_adapted(native, target, cat),
        DataComponent::CanPlaceOn | DataComponent::CanBreak => adventure_adapted(native, show_in_tooltip, cat),
        DataComponent::EntityData | DataComponent::BlockEntityData => match wire::take_var_int(native) {
            Some((id, rest)) => Some(rest),
            None => None,
        },
        DataComponent::Profile => profile_adapted(native, cat),
        _ => None,
    }
}

/// Brings a payload to an older layout.
pub fn adapt(
    component: DataComponent,
    native: Vec<u8>,
    target: Version,
    show_in_tooltip: bool,
    cat: &Catalog,
) -> (res: Option<Vec<u8>>)
    ensures
        same_option(res, adapted(component, native@, target, show_in_tooltip, cat)),
{
    match component {
        DataComponent::Unbreakable => {
            let mut out: Vec<u8> = Vec::new();
            out.push(1);
            Some(out)
        },
        DataComponent::Enchantments | DataComponent::StoredEnchantments | DataComponent::DyedColor => {
            let mut out: Vec<u8> = native;
            out.push(1);
            Some(out)
        },
        DataComponent::Tool => {
            let mut out: Vec<u8> = native;
            out.pop();
            Some(out)
        },
        DataComponent::JukeboxPlayable => legacy_jukebox_playable(native.as_slice(), target),
        DataComponent::AttributeModifiers => attribute_modifiers(native.as_slice(), target).ok(),
        DataComponent::Trim => legacy_trim(native.as_slice(), target).ok(),
        DataComponent::Instrument => legacy_instrument(native.as_slice(), target).ok(),
        DataComponent::ProvidesTrimMaterial => legacy_provides_trim_material(native.as_slice(), target).ok(),
        DataComponent::CustomModelData => match legacy_custom_model_data(native.as_slice()) {
            Some(value) => Some(wire::var_int_bytes(value)),
            None => None,
        },
        DataComponent::Equippable => equippable(native.as_slice(), target, cat),
        DataComponent::CanPlaceOn | DataComponent::CanBreak => adventure_mode_predicates(
            native.as_slice(),
            show_in_tooltip,
            cat,
        ).ok(),
        DataComponent::EntityData | DataComponent::BlockEntityData => {
            let mut r: &[u8] = native.as_slice();
            match wire::get_var_int(&mut r) {
                Ok(_) => Some(slice_to_vec(r)),
                Err(_) => None,
            }
        },
        DataComponent::Profile => profile(native.as_slice(), cat).ok(),
        _ => None,
    }
}

// --- laws ---------------------------------------------------------------------------------------------

/// The int that a model component was made from comes back, for every int that a
/// float can hold.
pub proof fn model_values_come_back(value: i32)
    requires
        -0x100_0000 <= value <= 0x100_0000,
    ensures
        model_value(enc_model(value)) == Some(value),
{
    let zero = wire::enc_var_int(0);
    let number = wire::enc_u32(number::nearest(value));
    assert(enc_model(value) =~= wire::enc_var_int(1) + (number + (zero + (zero + (zero + Seq::<u8>::empty())))));
    wire::var_int_round_trip(1, number + (zero + (zero + (zero + Seq::<u8>::empty()))));
    wire::u32_round_trip(number::nearest(value), zero + (zero + (zero + Seq::<u8>::empty())));
    wire::var_int_round_trip(0, zero + (zero + Seq::<u8>::empty()));
    wire::var_int_round_trip(0, zero + Seq::<u8>::empty());
    wire::var_int_round_trip(0, Seq::<u8>::empty());
    number::small_ints_come_back(value);
}

} // verus!
