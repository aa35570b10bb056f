//! Item stacks as a client sends them, read into the server's form.
use vstd::prelude::*;
use vstd::slice::slice_to_vec;
use crate::catalog;
use crate::catalog::DataComponent;
use crate::connection::UserConnection;
use crate::item;
use crate::item_backup;
use crate::item_backup::ComponentHash;
use crate::item::StructuredItemRewriter;
use crate::item_component;
use crate::nbt;
use crate::nbt::NbtTag;
use crate::mapping;
use crate::shape;
use crate::shape::Shape;
use crate::target::Target;
use crate::types;
use crate::types::Component;
use crate::types::Item;
use crate::types::ItemComponent;
use crate::types::Stack;
use crate::types::WritingError;
use crate::version;
use crate::version::Version;
use crate::wire;
use crate::wire::ReadingError;

verus! {

pub open spec fn holds_stacks(component: DataComponent) -> bool {
    component is ChargedProjectiles || component is BundleContents || component is Container || component
        is UseRemainder || component is SulfurCubeContent
}

pub open spec fn has_effects(component: DataComponent) -> bool {
    component is Consumable || component is DeathProtection
}

/// A payload by the layout that its client has: the server's where the payload
/// brings its own length, else that of the client's release.
pub open spec fn laid_out(component: DataComponent, s: Seq<u8>, bounded: bool, from: &Target) -> Option<
    (Seq<u8>, Seq<u8>),
> {
    let version = if bounded {
        version::V_26_3
    } else {
        from.version
    };
    match catalog::layout_of(from.cat, catalog::id_of(from.cat, component), version) {
        Some(layout) => shape::take_shape(layout, s, from.cat, version),
        None => None,
    }
}

/// What a finished payload becomes: the bytes, and what stands behind them.
pub open spec fn payload_end(data: Option<Seq<u8>>, rest: Seq<u8>) -> Option<(Option<Seq<u8>>, Seq<u8>)> {
    match data {
        Some(bytes) => Some((Some(bytes), rest)),
        None => None,
    }
}

/// A payload of consume effects.
pub open spec fn effects_payload(component: DataComponent, s: Seq<u8>, bounded: bool, from: &Target) -> Option<
    (Option<Seq<u8>>, Seq<u8>),
> {
    let source = if bounded {
        Some((s, Seq::<u8>::empty()))
    } else {
        laid_out(component, s, false, from)
    };
    match source {
        Some((bytes, rest)) => payload_end(
            item_component::consume_effects_native(component, bytes, from.version, from.cat),
            rest,
        ),
        None => None,
    }
}

/// A payload whose layout the release shares with the server.
pub open spec fn shared_payload(component: DataComponent, s: Seq<u8>, bounded: bool, from: &Target) -> Option<
    (Option<Seq<u8>>, Seq<u8>),
> {
    match laid_out(component, s, bounded, from) {
        Some((bytes, rest)) => payload_end(
            match component {
                DataComponent::Enchantments | DataComponent::StoredEnchantments => item_component::levels_carried(
                    bytes,
                    from.ids.enchantments@,
                    true,
                ),
                _ => item_component::registry_ids_native(component, bytes, from.version, from.cat),
            },
            rest,
        ),
        None => None,
    }
}

/// A payload in the server's layout with a flag for the tooltip behind it.
pub open spec fn flagged_payload(component: DataComponent, s: Seq<u8>, from: &Target) -> Option<
    (Option<Seq<u8>>, Seq<u8>),
> {
    match laid_out(component, s, true, from) {
        Some((bytes, t)) => match wire::take_bool(t) {
            Some((shown, rest)) => payload_end(
                match component {
                    DataComponent::DyedColor => Some(bytes),
                    _ => item_component::levels_carried(bytes, from.ids.enchantments@, true),
                },
                rest,
            ),
            None => None,
        },
        None => None,
    }
}

/// The data of an entity, which the server wants behind an entity's id.
pub open spec fn entity_payload(s: Seq<u8>, from: &Target) -> Option<(Option<Seq<u8>>, Seq<u8>)> {
    match nbt::take_nbt(s, version::nbt_is_named(from.version)) {
        Some((tag, rest)) => Some((Some(wire::enc_var_int(0) + nbt::enc_nbt(tag, false)), rest)),
        None => None,
    }
}

/// A payload in a layout that the server no longer has. What cannot be rebuilt is
/// read and left out.
pub open spec fn older_payload(component: DataComponent, s: Seq<u8>, bounded: bool, from: &Target) -> Option<
    (Option<Seq<u8>>, Seq<u8>),
> {
    match component {
        DataComponent::Trim
        | DataComponent::Instrument
        | DataComponent::ProvidesTrimMaterial => item_component::registry_component_native(
            component,
            s,
            from.version,
            bounded,
            from.cat,
        ),
        DataComponent::JukeboxPlayable => item_component::jukebox_native(s, from.version, bounded, from.cat),
        DataComponent::CustomModelData => match wire::take_var_int(s) {
            Some((value, rest)) => Some((Some(item_component::enc_model(value)), rest)),
            None => None,
        },
        DataComponent::Unbreakable => match wire::take_bool(s) {
            Some((shown, rest)) => Some((Some(Seq::<u8>::empty()), rest)),
            None => None,
        },
        DataComponent::Enchantments
        | DataComponent::StoredEnchantments
        | DataComponent::DyedColor => flagged_payload(component, s, from),
        DataComponent::EntityData | DataComponent::BlockEntityData => entity_payload(s, from),
        _ => match item::client_payload_skipped(component, s, from.version, from.cat) {
            Some(rest) => Some((None, rest)),
            None => None,
        },
    }
}

/// One component payload of a client, in the server's layout; nothing in place of
/// the bytes where the server's layout cannot hold them.
pub open spec fn client_payload(
    component: DataComponent,
    s: Seq<u8>,
    from_client: bool,
    bounded: bool,
    from: &Target,
) -> Option<(Option<Seq<u8>>, Seq<u8>)>
    decreases s.len(), 3int, 0nat,
{
    let own = from_client && from.version < version::V_26_3;
    if own && holds_stacks(component) {
        match client_nested(component, s, from) {
            Some((bytes, rest)) => item_component::bounded_end(Some(bytes), rest, bounded),
            None => None,
        }
    } else if own && has_effects(component) {
        effects_payload(component, s, bounded, from)
    } else if from.version >= item_component::floor_of(component) {
        shared_payload(component, s, bounded, from)
    } else {
        older_payload(component, s, bounded, from)
    }
}

/// A payload that holds stacks: one, or a counted list of them.
pub open spec fn client_nested(component: DataComponent, s: Seq<u8>, from: &Target) -> Option<(Seq<u8>, Seq<u8>)>
    decreases s.len(), 2int, 0nat,
{
    if component is UseRemainder || component is SulfurCubeContent {
        client_place(s, false, from)
    } else {
        match wire::take_var_int(s) {
            Some((n, t)) => if n < 0 || n > item_component::MAX_ENTRIES {
                None
            } else {
                proof {
                    types::lemma_var_int_shorter(s);
                }
                shape::after(
                    wire::enc_var_int(n),
                    client_places(n as nat, t, component is Container, from),
                )
            },
            None => None,
        }
    }
}

/// One place of a list of stacks; where places may be empty each has a flag.
pub open spec fn client_place(s: Seq<u8>, flagged: bool, from: &Target) -> Option<(Seq<u8>, Seq<u8>)>
    decreases s.len(), 1int, 0nat,
{
    if flagged && s.len() == 0 {
        None
    } else if flagged && s[0] == 0 {
        Some((wire::enc_bool(false), s.skip(1)))
    } else {
        let t = if flagged {
            s.skip(1)
        } else {
            s
        };
        let head = if flagged {
            wire::enc_bool(true)
        } else {
            seq![]
        };
        match client_template(t, from) {
            Some((stack, rest)) => match types::enc_template(stack) {
                Some(bytes) => Some((head + bytes, rest)),
                None => None,
            },
            None => None,
        }
    }
}

/// `n` places of a list of stacks. Each is at least one byte long.
pub open spec fn client_places(n: nat, s: Seq<u8>, flagged: bool, from: &Target) -> Option<(Seq<u8>, Seq<u8>)>
    decreases s.len(), 2int, n,
{
    if n == 0 {
        Some((seq![], s))
    } else {
        match client_place(s, flagged, from) {
            Some((bytes, rest)) => if rest.len() < s.len() {
                shape::after(bytes, client_places((n - 1) as nat, rest, flagged, from))
            } else {
                None
            },
            None => None,
        }
    }
}

/// A client's stack that cannot be empty: its id, its count, its patch.
pub open spec fn client_template(s: Seq<u8>, from: &Target) -> Option<(Stack, Seq<u8>)>
    decreases s.len(), 0int, 0nat,
{
    match wire::take_var_int(s) {
        Some((id, s1)) => match wire::take_var_int(s1) {
            Some((count, s2)) => {
                proof {
                    types::lemma_var_int_shorter(s);
                    types::lemma_var_int_shorter(s1);
                }
                client_patch(s2, count, id, false, true, from)
            },
            None => None,
        },
        None => None,
    }
}

/// The patch of a client's stack: both counts, the added components, the ids of
/// the removed ones.
pub open spec fn client_patch(
    s: Seq<u8>,
    count: i32,
    id: i32,
    prefixed: bool,
    from_client: bool,
    from: &Target,
) -> Option<(Stack, Seq<u8>)>
    decreases s.len(), 5int, 0nat,
{
    match wire::take_var_int(s) {
        Some((to_add, s1)) => match wire::take_var_int(s1) {
            Some((to_remove, s2)) => if !types::in_bounds(to_add, types::MAX_COMPONENTS) || !types::in_bounds(
                to_remove,
                types::MAX_COMPONENTS,
            ) {
                None
            } else {
                proof {
                    types::lemma_var_int_shorter(s);
                    types::lemma_var_int_shorter(s1);
                }
                match client_components(seq![], to_add as nat, s2, prefixed, from_client, from) {
                    Some((added, s3)) => match types::take_ids(seq![], to_remove as nat, s3) {
                        Some((removed, rest)) => Some((patched(count, id, added, removed, from), rest)),
                        None => None,
                    },
                    None => None,
                }
            },
            None => None,
        },
        None => None,
    }
}

/// The server's stack with the parts that a client sent; empty where the server
/// does not know the item.
pub open spec fn patched(count: i32, id: i32, added: Seq<Component>, removed: Seq<i32>, from: &Target) -> Stack {
    match mapping::unmapped(from.ids.items@, id) {
        Some(mapped_id) => Stack::Structured {
            count,
            id: mapped_id,
            added,
            removed: item::removed_native(seq![], removed, 0, from),
        },
        None => Stack::Empty,
    }
}

/// The component that a client's id stands for.
pub open spec fn component_native(id: i32, from: &Target) -> Option<DataComponent> {
    match item::component_id_native(id, from) {
        Some(native) => catalog::component_of(from.cat, native),
        None => None,
    }
}

/// A component of a client; none, with what stands behind it, where the server
/// has no place for it. With `prefixed` the payload brings its own length.
pub open spec fn client_component(s: Seq<u8>, prefixed: bool, from_client: bool, from: &Target) -> Option<
    (Option<Component>, Seq<u8>),
>
    decreases s.len(), 4int, 0nat,
{
    match wire::take_var_int(s) {
        Some((id, t)) => {
            proof {
                types::lemma_var_int_shorter(s);
            }
            if prefixed {
                match wire::take_var_int(t) {
                    Some((length, u)) => {
                        proof {
                            types::lemma_var_int_shorter(t);
                        }
                        if length < 0 || length > u.len() {
                            None
                        } else {
                            match component_native(id, from) {
                                Some(component) => match client_payload(
                                    component,
                                    u.take(length as int),
                                    from_client,
                                    true,
                                    from,
                                ) {
                                    Some((data, ignored)) => Some(
                                        (named(component, data, from), u.skip(length as int)),
                                    ),
                                    None => None,
                                },
                                None => Some((None, u.skip(length as int))),
                            }
                        }
                    },
                    None => None,
                }
            } else {
                match component_native(id, from) {
                    Some(component) => match client_payload(component, t, from_client, false, from) {
                        Some((data, rest)) => Some((named(component, data, from), rest)),
                        None => None,
                    },
                    None => if item::is_empty_component(id, from.version) {
                        Some((None, t))
                    } else {
                        None
                    },
                }
            }
        },
        None => None,
    }
}

pub open spec fn named(component: DataComponent, data: Option<Seq<u8>>, from: &Target) -> Option<Component> {
    match data {
        Some(bytes) => Some(Component { id: catalog::id_of(from.cat, component), data: bytes }),
        None => None,
    }
}

/// `n` components of a client, put behind `added`. Each is at least one byte long.
pub open spec fn client_components(
    added: Seq<Component>,
    n: nat,
    s: Seq<u8>,
    prefixed: bool,
    from_client: bool,
    from: &Target,
) -> Option<(Seq<Component>, Seq<u8>)>
    decreases s.len(), 5int, n,
{
    if n == 0 {
        Some((added, s))
    } else {
        match client_component(s, prefixed, from_client, from) {
            Some((component, rest)) => if rest.len() < s.len() {
                client_components(
                    match component {
                        Some(component) => added.push(component),
                        None => added,
                    },
                    (n - 1) as nat,
                    rest,
                    prefixed,
                    from_client,
                    from,
                )
            } else {
                None
            },
            None => None,
        }
    }
}

/// A stack in the form of a release, in the server's form.
pub open spec fn client_item(s: Seq<u8>, prefixed: bool, from_client: bool, from: &Target) -> Option<
    (Stack, Seq<u8>),
> {
    if from.version < types::FIRST_STRUCTURED {
        match types::take_nbt_stack(s, from.version) {
            Some((stack, rest)) => Some((item::stack_to_native(stack, from), rest)),
            None => None,
        }
    } else {
        match wire::take_var_int(s) {
            Some((count, s1)) => if count == 0 {
                Some((Stack::Empty, s1))
            } else {
                match wire::take_var_int(s1) {
                    Some((id, s2)) => client_patch(s2, count, id, prefixed, from_client, from),
                    None => None,
                }
            },
            None => None,
        }
    }
}

// --- the readers ---------------------------------------------------------------------------------------

fn get_laid_out<'a>(component: DataComponent, r: &mut &'a [u8], bounded: bool, from: &Target) -> (res: Result<
    &'a [u8],
    ReadingError,
>)
    ensures
        match laid_out(component, old(r)@, bounded, from) {
            Some((bytes, rest)) => res is Ok && res->Ok_0@ == bytes && final(r)@ == rest,
            None => res is Err,
        },
{
    let version: Version = if bounded {
        version::V_26_3
    } else {
        from.version
    };
    match from.cat.layout(from.cat.component_id(component), version) {
        Some(layout) => shape::get_shape(layout, r, from.cat, version),
        None => Err(ReadingError::Malformed),
    }
}

fn read_effects_payload(component: DataComponent, r: &mut &[u8], bounded: bool, from: &Target) -> (res: Result<
    Option<Vec<u8>>,
    ReadingError,
>)
    ensures
        item_component::same_payload(res, final(r)@, effects_payload(component, old(r)@, bounded, from)),
{
    let source: &[u8] = if bounded {
        let length: usize = r.len();
        wire::get_bytes(r, length)?
    } else {
        get_laid_out(component, r, false, from)?
    };
    assert(bounded ==> source@ =~= old(r)@ && r@ =~= Seq::<u8>::empty());
    match item_component::consume_effects_to_native(component, source, from.version, from.cat) {
        Ok(bytes) => Ok(Some(bytes)),
        Err(error) => Err(error),
    }
}

fn read_shared_payload(component: DataComponent, r: &mut &[u8], bounded: bool, from: &Target) -> (res: Result<
    Option<Vec<u8>>,
    ReadingError,
>)
    ensures
        item_component::same_payload(res, final(r)@, shared_payload(component, old(r)@, bounded, from)),
{
    let source: &[u8] = get_laid_out(component, r, bounded, from)?;
    let native: Result<Vec<u8>, ReadingError> = match component {
        DataComponent::Enchantments | DataComponent::StoredEnchantments => item_component::carry_levels(
            source,
            &from.ids.enchantments,
            true,
        ),
        _ => item_component::registry_ids_to_native(component, source, from.version, from.cat),
    };
    match native {
        Ok(bytes) => Ok(Some(bytes)),
        Err(error) => Err(error),
    }
}

fn read_flagged_payload(component: DataComponent, r: &mut &[u8], from: &Target) -> (res: Result<
    Option<Vec<u8>>,
    ReadingError,
>)
    ensures
        item_component::same_payload(res, final(r)@, flagged_payload(component, old(r)@, from)),
{
    let source: &[u8] = get_laid_out(component, r, true, from)?;
    let _shown: bool = wire::get_bool(r)?;
    let native: Result<Vec<u8>, ReadingError> = match component {
        DataComponent::DyedColor => Ok(slice_to_vec(source)),
        _ => item_component::carry_levels(source, &from.ids.enchantments, true),
    };
    match native {
        Ok(bytes) => Ok(Some(bytes)),
        Err(error) => Err(error),
    }
}

fn read_older_payload(component: DataComponent, r: &mut &[u8], bounded: bool, from: &Target) -> (res: Result<
    Option<Vec<u8>>,
    ReadingError,
>)
    ensures
        item_component::same_payload(res, final(r)@, older_payload(component, old(r)@, bounded, from)),
{
    match component {
        DataComponent::Trim
        | DataComponent::Instrument
        | DataComponent::ProvidesTrimMaterial => item_component::legacy_registry_component_to_native(
            component,
            r,
            from.version,
            bounded,
            from.cat,
        ),
        DataComponent::JukeboxPlayable => item_component::legacy_jukebox_playable_to_native(
            r,
            from.version,
            bounded,
            from.cat,
        ),
        DataComponent::CustomModelData => {
            let value: i32 = wire::get_var_int(r)?;
            Ok(Some(item_component::model_payload(value)))
        },
        DataComponent::Unbreakable => {
            let shown: bool = wire::get_bool(r)?;
            let data: Vec<u8> = Vec::new();
            Ok(Some(data))
        },
        DataComponent::Enchantments
        | DataComponent::StoredEnchantments
        | DataComponent::DyedColor => read_flagged_payload(component, r, from),
        DataComponent::EntityData | DataComponent::BlockEntityData => {
            let tag: Option<NbtTag> = nbt::get_nbt(r, version::has_named_nbt(from.version))?;
            let mut out: Vec<u8> = wire::var_int_bytes(0);
            match &tag {
                Some(tag) => nbt::write_nbt(&mut out, tag, false),
                None => out.push(0),
            }
            Ok(Some(out))
        },
        _ => {
            item::skip_client_payload(component, r, from.version, from.cat)?;
            Ok(None)
        },
    }
}

/// Consumes one component payload in the layout of its client's release. `None`
/// means that the layout was read but the server has no form for it.
fn read_client_payload(
    component: DataComponent,
    r: &mut &[u8],
    from_client: bool,
    bounded: bool,
    from: &Target,
) -> (res: Result<Option<Vec<u8>>, ReadingError>)
    ensures
        item_component::same_payload(
            res,
            final(r)@,
            client_payload(component, old(r)@, from_client, bounded, from),
        ),
    decreases old(r)@.len(), 3int, 0nat,
{
    if from_client && from.version < version::V_26_3 {
        match component {
            DataComponent::ChargedProjectiles
            | DataComponent::BundleContents
            | DataComponent::Container
            | DataComponent::UseRemainder
            | DataComponent::SulfurCubeContent => {
                let data: Vec<u8> = read_nested_item_component(component, r, from)?;
                if bounded && r.len() != 0 {
                    return Err(ReadingError::Malformed);
                }
                return Ok(Some(data));
            },
            DataComponent::Consumable | DataComponent::DeathProtection => {
                return read_effects_payload(component, r, bounded, from);
            },
            _ => {},
        }
    }
    if from.version >= item_component::shape_floor(component) {
        read_shared_payload(component, r, bounded, from)
    } else {
        read_older_payload(component, r, bounded, from)
    }
}

pub fn read_nested_item_component(component: DataComponent, r: &mut &[u8], from: &Target) -> (res: Result<
    Vec<u8>,
    ReadingError,
>)
    ensures
        match client_nested(component, old(r)@, from) {
            Some((bytes, rest)) => res is Ok && res->Ok_0@ == bytes && final(r)@ == rest,
            None => res is Err,
        },
    decreases old(r)@.len(), 2int, 0nat,
{
    match component {
        DataComponent::UseRemainder | DataComponent::SulfurCubeContent => {
            let mut out: Vec<u8> = Vec::new();
            read_place(r, &mut out, false, from)?;
            proof {
                if let Some((bytes, rest)) = client_place(old(r)@, false, from) {
                    assert(out@ =~= bytes);
                }
            }
            Ok(out)
        },
        _ => {
            proof {
                types::lemma_var_int_shorter(r@);
            }
            let count: i32 = wire::get_var_int(r)?;
            if count < 0 || count > item_component::MAX_ENTRIES {
                return Err(ReadingError::Malformed);
            }
            let mut out: Vec<u8> = wire::var_int_bytes(count);
            let flagged: bool = match component {
                DataComponent::Container => true,
                _ => false,
            };
            read_places(count as u32, r, &mut out, flagged, from)?;
            Ok(out)
        },
    }
}

#[verifier::rlimit(60)]
fn read_place(r: &mut &[u8], out: &mut Vec<u8>, flagged: bool, from: &Target) -> (res: Result<(), ReadingError>)
    ensures
        match client_place(old(r)@, flagged, from) {
            Some((bytes, rest)) => res is Ok && final(out)@ == old(out)@ + bytes && final(r)@ == rest,
            None => res is Err,
        },
    decreases old(r)@.len(), 1int, 0nat,
{
    let ghost before = out@;
    if flagged {
        let present: bool = wire::get_bool(r)?;
        wire::write_bool(out, present);
        if !present {
            return Ok(());
        }
    }
    let ghost headed = out@;
    assert(r@ =~= if flagged { old(r)@.skip(1) } else { old(r)@ });
    let item: Item = read_client_template(r, from)?;
    match types::write_template(out, &item) {
        Ok(()) => {
            proof {
                let bytes = types::enc_template(item@).unwrap();
                let head = if flagged {
                    wire::enc_bool(true)
                } else {
                    seq![]
                };
                assert(headed =~= before + head);
                assert(before + head + bytes =~= before + (head + bytes));
            }
            Ok(())
        },
        Err(_) => Err(ReadingError::Malformed),
    }
}

fn read_places(n: u32, r: &mut &[u8], out: &mut Vec<u8>, flagged: bool, from: &Target) -> (res: Result<
    (),
    ReadingError,
>)
    ensures
        match client_places(n as nat, old(r)@, flagged, from) {
            Some((bytes, rest)) => res is Ok && final(out)@ == old(out)@ + bytes && final(r)@ == rest,
            None => res is Err,
        },
    decreases old(r)@.len(), 2int, n as nat,
{
    if n == 0 {
        assert(out@ =~= old(out)@ + Seq::<u8>::empty());
        return Ok(());
    }
    let length: usize = r.len();
    read_place(r, out, flagged, from)?;
    if r.len() >= length {
        return Err(ReadingError::Malformed);
    }
    read_places(n - 1, r, out, flagged, from)
}

fn read_client_template(r: &mut &[u8], from: &Target) -> (res: Result<Item, ReadingError>)
    ensures
        match client_template(old(r)@, from) {
            Some((stack, rest)) => res is Ok && res->Ok_0@ == stack && final(r)@ == rest,
            None => res is Err,
        },
    decreases old(r)@.len(), 0int, 0nat,
{
    proof {
        types::lemma_var_int_shorter(r@);
    }
    let id: i32 = wire::get_var_int(r)?;
    proof {
        types::lemma_var_int_shorter(r@);
    }
    let count: i32 = wire::get_var_int(r)?;
    read_patch(r, count, id, false, true, from)
}

fn read_patch(r: &mut &[u8], count: i32, id: i32, prefixed: bool, from_client: bool, from: &Target) -> (res: Result<
    Item,
    ReadingError,
>)
    ensures
        match client_patch(old(r)@, count, id, prefixed, from_client, from) {
            Some((stack, rest)) => res is Ok && res->Ok_0@ == stack && final(r)@ == rest,
            None => res is Err,
        },
    decreases old(r)@.len(), 5int, 0nat,
{
    proof {
        types::lemma_var_int_shorter(r@);
    }
    let to_add: i32 = wire::get_var_int(r)?;
    proof {
        types::lemma_var_int_shorter(r@);
    }
    let to_remove: i32 = wire::get_var_int(r)?;
    if to_add < 0 || to_add > 256 || to_remove < 0 || to_remove > 256 {
        return Err(ReadingError::Malformed);
    }
    let mut added: Vec<ItemComponent> = Vec::new();
    assert(types::component_views(added@) =~= seq![]);
    read_components(&mut added, to_add as u32, r, prefixed, from_client, from)?;
    let ids: Vec<i32> = types::get_ids(to_remove as u32, r)?;
    match from.ids.items.unmap_id(id) {
        Some(id) => {
            let removed: Vec<i32> = item::removed_from_client(&ids, from);
            Ok(Item::Structured { count, id, added, removed })
        },
        None => Ok(Item::Empty),
    }
}

fn component_from_client(id: i32, from: &Target) -> (res: Option<DataComponent>)
    ensures
        res == component_native(id, from),
{
    match item::map_component_id_from_client(id, from) {
        Some(native) => from.cat.component(native),
        None => None,
    }
}

fn read_component(r: &mut &[u8], prefixed: bool, from_client: bool, from: &Target) -> (res: Result<
    Option<ItemComponent>,
    ReadingError,
>)
    ensures
        match client_component(old(r)@, prefixed, from_client, from) {
            Some((component, rest)) => res is Ok && (match res->Ok_0 {
                Some(found) => component == Some(found@),
                None => component is None,
            }) && final(r)@ == rest,
            None => res is Err,
        },
    decreases old(r)@.len(), 4int, 0nat,
{
    proof {
        types::lemma_var_int_shorter(r@);
    }
    let id: i32 = wire::get_var_int(r)?;
    let known: Option<DataComponent> = component_from_client(id, from);
    if prefixed {
        proof {
            types::lemma_var_int_shorter(r@);
        }
        let length: i32 = wire::get_var_int(r)?;
        if length < 0 || length as u64 > r.len() as u64 {
            return Err(ReadingError::Malformed);
        }
        let mut body: &[u8] = wire::get_bytes(r, length as usize)?;
        match known {
            Some(component) => {
                match read_client_payload(component, &mut body, from_client, true, from)? {
                    Some(data) => Ok(Some(ItemComponent { id: from.cat.component_id(component), data })),
                    None => Ok(None),
                }
            },
            None => Ok(None),
        }
    } else {
        match known {
            Some(component) => {
                match read_client_payload(component, r, from_client, false, from)? {
                    Some(data) => Ok(Some(ItemComponent { id: from.cat.component_id(component), data })),
                    None => Ok(None),
                }
            },
            None => {
                if item::client_component_is_empty(id, from.version) {
                    Ok(None)
                } else {
                    Err(ReadingError::Malformed)
                }
            },
        }
    }
}

fn read_components(
    added: &mut Vec<ItemComponent>,
    n: u32,
    r: &mut &[u8],
    prefixed: bool,
    from_client: bool,
    from: &Target,
) -> (res: Result<(), ReadingError>)
    ensures
        match client_components(
            types::component_views(old(added)@),
            n as nat,
            old(r)@,
            prefixed,
            from_client,
            from,
        ) {
            Some((all, rest)) => res is Ok && types::component_views(final(added)@) == all && final(r)@ == rest,
            None => res is Err,
        },
    decreases old(r)@.len(), 5int, n as nat,
{
    if n == 0 {
        return Ok(());
    }
    let length: usize = r.len();
    let ghost before = types::component_views(added@);
    match read_component(r, prefixed, from_client, from)? {
        Some(component) => {
            let ghost view = component@;
            added.push(component);
            assert(types::component_views(added@) =~= before.push(view));
        },
        None => {},
    }
    if r.len() >= length {
        return Err(ReadingError::Malformed);
    }
    read_components(added, n - 1, r, prefixed, from_client, from)
}

/// Reads one stack in the form of a release into the server's form.
fn read_client_item_with_direction(r: &mut &[u8], prefixed: bool, from_client: bool, from: &Target) -> (res: Result<
    Item,
    ReadingError,
>)
    ensures
        match client_item(old(r)@, prefixed, from_client, from) {
            Some((stack, rest)) => res is Ok && res->Ok_0@ == stack && final(r)@ == rest,
            None => res is Err,
        },
{
    if from.version < types::FIRST_STRUCTURED {
        let item: Item = types::get_nbt_stack(r, from.version)?;
        return Ok(StructuredItemRewriter::to_native(&item, from));
    }
    let count: i32 = wire::get_var_int(r)?;
    if count == 0 {
        return Ok(Item::Empty);
    }
    let id: i32 = wire::get_var_int(r)?;
    read_patch(r, count, id, prefixed, from_client, from)
}

/// Reads one stack that a client sent into the server's form, with every
/// component whose layout cannot be rebuilt left out.
pub fn read_client_item(r: &mut &[u8], length_prefixed: bool, from: &Target) -> (res: Result<Item, ReadingError>)
    ensures
        match client_item(old(r)@, length_prefixed, true, from) {
            Some((stack, rest)) => res is Ok && res->Ok_0@ == stack && final(r)@ == rest,
            None => res is Err,
        },
{
    read_client_item_with_direction(r, length_prefixed, true, from)
}

// --- stacks inside packets -----------------------------------------------------------------------------

/// Whether a release puts the length of each component in front of it when it
/// sends a stack.
pub open spec fn sends_lengths(version: Version) -> bool {
    version >= version::V_1_21_5
}

/// A stack as a client sends it, read into the form that the server expects.
pub struct ClientItemT<'a> {
    pub from: Target<'a>,
}

impl<'a> ClientItemT<'a> {
    pub fn new(from: Target<'a>) -> (res: ClientItemT<'a>)
        ensures
            res.from == from,
    {
        ClientItemT { from }
    }

    pub fn length_prefixed(&self) -> (res: bool)
        ensures
            res == sends_lengths(self.from.version),
    {
        self.from.version >= version::V_1_21_5
    }

    pub fn read(&self, r: &mut &[u8]) -> (res: Result<Item, ReadingError>)
        ensures
            match client_item(old(r)@, sends_lengths(self.from.version), true, &self.from) {
                Some((stack, rest)) => res is Ok && res->Ok_0@ == stack && final(r)@ == rest,
                None => res is Err,
            },
    {
        read_client_item(r, self.length_prefixed(), &self.from)
    }

    pub fn write(&self, out: &mut Vec<u8>, item: &Item) -> (res: Result<(), WritingError>)
        ensures
            match types::enc_item(item@, version::V_26_3, sends_lengths(self.from.version)) {
                Some(bytes) => res is Ok && final(out)@ == old(out)@ + bytes,
                None => res is Err && final(out)@ == old(out)@,
            },
    {
        types::write_item(out, item, version::V_26_3, self.length_prefixed())
    }
}

/// A stack in the layout of packets to a client, read into the server's form.
pub struct ClientboundItemT<'a> {
    pub from: Target<'a>,
}

impl<'a> ClientboundItemT<'a> {
    pub fn new(from: Target<'a>) -> (res: ClientboundItemT<'a>)
        ensures
            res.from == from,
    {
        ClientboundItemT { from }
    }

    pub fn read(&self, r: &mut &[u8]) -> (res: Result<Item, ReadingError>)
        ensures
            match client_item(old(r)@, false, false, &self.from) {
                Some((stack, rest)) => res is Ok && res->Ok_0@ == stack && final(r)@ == rest,
                None => res is Err,
            },
    {
        read_client_item_with_direction(r, false, false, &self.from)
    }

    pub fn write(&self, out: &mut Vec<u8>, item: &Item) -> (res: Result<(), WritingError>)
        ensures
            match types::enc_item(item@, self.from.version, false) {
                Some(bytes) => res is Ok && final(out)@ == old(out)@ + bytes,
                None => res is Err && final(out)@ == old(out)@,
            },
    {
        types::write_item(out, item, self.from.version, false)
    }
}

/// A stack in the layout of one release, for a client of another: the bytes, and
/// what stands behind the stack.
pub open spec fn stack_rewritten(s: Seq<u8>, from: &Target, to: &Target) -> Option<(Seq<u8>, Seq<u8>)> {
    match client_item(s, false, false, from) {
        Some((stack, rest)) => match types::enc_item(item::stack_to_version(stack, to), to.version, false) {
            Some(bytes) => Some((bytes, rest)),
            None => None,
        },
        None => None,
    }
}

/// Reads a stack in the layout of a release and writes it for a client of that
/// release.
pub fn rewrite_item(input: &mut &[u8], output: &mut Vec<u8>, to: &Target) -> (res: Result<(), ReadingError>)
    ensures
        match stack_rewritten(old(input)@, to, to) {
            Some((bytes, rest)) => res is Ok && final(output)@ == old(output)@ + bytes && final(input)@ == rest,
            None => res is Err,
        },
{
    let item: Item = read_client_item_with_direction(input, false, false, to)?;
    let out: Item = StructuredItemRewriter::to_version(&item, to);
    match types::write_item(output, &out, to.version, false) {
        Ok(()) => Ok(()),
        Err(_) => Err(ReadingError::Malformed),
    }
}

/// Reads a stack of the server that stands inside something else, and gives it in
/// a client's form. `native` has the tables of the server's own release.
pub fn rewrite_item_value(input: &mut &[u8], native: &Target, to: &Target) -> (res: Option<Vec<u8>>)
    ensures
        match stack_rewritten(old(input)@, native, to) {
            Some((bytes, rest)) => res is Some && res.unwrap()@ == bytes && final(input)@ == rest,
            None => res is None,
        },
{
    let item: Item = match read_client_item_with_direction(input, false, false, native) {
        Ok(item) => item,
        Err(_) => {
            return None;
        },
    };
    let item: Item = StructuredItemRewriter::to_version(&item, to);
    let mut out: Vec<u8> = Vec::new();
    match types::write_item(&mut out, &item, to.version, false) {
        Ok(()) => {
            proof {
                assert(out@ =~= types::enc_item(item@, to.version, false).unwrap());
            }
            Some(out)
        },
        Err(_) => None,
    }
}

/// As `stack_rewritten`, with what the stack loses kept on the connection: the
/// connection's backups, the bytes, and what stands behind the stack. Backups are
/// kept though the stack then cannot be written.
pub open spec fn stack_kept(
    rows: Seq<item_backup::Row>,
    s: Seq<u8>,
    hashes: Seq<ComponentHash>,
    from: &Target,
    to: &Target,
) -> (Seq<item_backup::Row>, Option<(Seq<u8>, Seq<u8>)>) {
    match client_item(s, false, false, from) {
        Some((stack, rest)) => {
            let (kept, shown) = item_backup::backed_up(rows, stack, item::stack_to_version(stack, to), hashes, to);
            (
                kept,
                match types::enc_item(shown, to.version, false) {
                    Some(bytes) => Some((bytes, rest)),
                    None => None,
                },
            )
        },
        None => (rows, None),
    }
}

/// Reads a stack in the layout of `from` and gives it in the form of `to`, with
/// what it loses kept on the connection.
fn rewrite_and_keep(
    connection: &mut UserConnection,
    input: &mut &[u8],
    hashes: &Vec<ComponentHash>,
    from: &Target,
    to: &Target,
) -> (res: Option<Vec<u8>>)
    ensures
        ({
            let (kept, wanted) = stack_kept(old(connection).backups@, old(input)@, hashes@, from, to);
            final(connection).backups@ == kept && match wanted {
                Some((bytes, rest)) => res is Some && res.unwrap()@ == bytes && final(input)@ == rest,
                None => res is None,
            }
        }),
        item_backup::same_but_backups(*final(connection), *old(connection)),
{
    let original: Item = match read_client_item_with_direction(input, false, false, from) {
        Ok(item) => item,
        Err(_) => {
            return None;
        },
    };
    let downgraded: Item = StructuredItemRewriter::to_version(&original, to);
    let shown: Item = item_backup::backup_clientbound_item(connection, &original, downgraded, hashes, to);
    let mut out: Vec<u8> = Vec::new();
    match types::write_item(&mut out, &shown, to.version, false) {
        Ok(()) => {
            proof {
                assert(out@ =~= types::enc_item(shown@, to.version, false).unwrap());
            }
            Some(out)
        },
        Err(_) => None,
    }
}

/// As `rewrite_item_value`, with the components that the client cannot express
/// kept on the connection.
pub fn rewrite_item_value_with_connection(
    input: &mut &[u8],
    native: &Target,
    to: &Target,
    hashes: &Vec<ComponentHash>,
    connection: &mut UserConnection,
) -> (res: Option<Vec<u8>>)
    ensures
        ({
            let (kept, wanted) = stack_kept(old(connection).backups@, old(input)@, hashes@, native, to);
            final(connection).backups@ == kept && match wanted {
                Some((bytes, rest)) => res is Some && res.unwrap()@ == bytes && final(input)@ == rest,
                None => res is None,
            }
        }),
        item_backup::same_but_backups(*final(connection), *old(connection)),
{
    rewrite_and_keep(connection, input, hashes, native, to)
}

/// A stack of a release in the server's form.
pub open spec fn stack_native(s: Seq<u8>, from: &Target) -> Option<(Seq<u8>, Seq<u8>)> {
    match client_item(s, false, false, from) {
        Some((stack, rest)) => match types::enc_item(stack, version::V_26_3, false) {
            Some(bytes) => Some((bytes, rest)),
            None => None,
        },
        None => None,
    }
}

/// Reads a stack that stands inside something else in the layout of a release, and
/// gives it in the server's form.
pub fn read_native_item_value(input: &mut &[u8], from: &Target) -> (res: Option<Vec<u8>>)
    ensures
        match stack_native(old(input)@, from) {
            Some((bytes, rest)) => res is Some && res.unwrap()@ == bytes && final(input)@ == rest,
            None => res is None,
        },
{
    let item: Item = match read_client_item_with_direction(input, false, false, from) {
        Ok(item) => item,
        Err(_) => {
            return None;
        },
    };
    let mut out: Vec<u8> = Vec::new();
    match types::write_item(&mut out, &item, version::V_26_3, false) {
        Ok(()) => {
            proof {
                assert(out@ =~= types::enc_item(item@, version::V_26_3, false).unwrap());
            }
            Some(out)
        },
        Err(_) => None,
    }
}

/// Passes one stack of a packet on to a client of the packet's release, with what
/// it loses kept on the connection.
pub fn item_pass(
    input: &mut &[u8],
    output: &mut Vec<u8>,
    connection: &mut UserConnection,
    hashes: &Vec<ComponentHash>,
    to: &Target,
) -> (res: Result<(), ReadingError>)
    ensures
        ({
            let (kept, wanted) = stack_kept(old(connection).backups@, old(input)@, hashes@, to, to);
            final(connection).backups@ == kept && match wanted {
                Some((bytes, rest)) => res is Ok && final(output)@ == old(output)@ + bytes && final(input)@ == rest,
                None => res is Err,
            }
        }),
        item_backup::same_but_backups(*final(connection), *old(connection)),
{
    match rewrite_and_keep(connection, input, hashes, to, to) {
        Some(bytes) => {
            wire::write_bytes(output, bytes.as_slice());
            Ok(())
        },
        None => Err(ReadingError::Malformed),
    }
}

/// An item that a client from 1.20.5 to 1.21.3 is shown another one for comes back as
/// itself. The model that marks the stand-in is the last component that the client
/// gets; its payload is read back into the server's layout, with what stands behind it
/// untouched, and the stack that then holds it is the row's item to the server.
pub proof fn older_stand_ins_lead_back(stack: Stack, row: int, bounded: bool, rest: Seq<u8>, to: &Target)
    requires
        item::is_stood_in(stack, row, to),
        item::has_room_for_model(stack, to),
        types::FIRST_STRUCTURED <= to.version < version::V_1_21_4,
    ensures
        ({
            let shown = item::stack_to_version(stack, to);
            let mark = shown->Structured_added.last();
            let payload = item_component::enc_model(to.ids.custom_model_data@[row].1);
            let sent = Stack::Structured {
                count: shown->Structured_count,
                id: shown->Structured_id,
                added: shown->Structured_added.drop_last().push(Component { id: mark.id, data: payload }),
                removed: shown->Structured_removed,
            };
            &&& shown->Structured_added.len() > 0
            &&& Some(mark.id) == item::own_component_mapped(DataComponent::CustomModelData, to)
            &&& client_payload(DataComponent::CustomModelData, mark.data + rest, true, bounded, to) == Some(
                (Some(payload), rest),
            )
            &&& item::stack_to_native(sent, to) matches Stack::Structured { id, count, .. } && id
                == stack->Structured_id && count == stack->Structured_count
        }),
{
    let shown = item::stack_to_version(stack, to);
    let value = to.ids.custom_model_data@[row].1;
    item::lemma_model_is_last(stack, row, to);
    item_component::model_values_come_back(value);
    wire::var_int_round_trip(value, rest);
    let mark = shown->Structured_added.last();
    assert(mark.data == wire::enc_var_int(value));
    let added = shown->Structured_added.drop_last().push(
        Component { id: mark.id, data: item_component::enc_model(value) },
    );
    assert forall|k: int| 0 <= k < added.len() - 1 implies (#[trigger] added[k]).id != added.last().id by {
        assert(added[k] == shown->Structured_added[k]);
    }
    item::lemma_last_model_leads_back(
        shown->Structured_count,
        added,
        shown->Structured_removed,
        row,
        to,
    );
}

} // verus!
