//! Item stacks between the server's form and a client's.
use vstd::prelude::*;
use vstd::slice::slice_to_vec;
use crate::catalog;
use crate::catalog::Catalog;
use crate::catalog::DataComponent;
use crate::item_component;
use crate::item_nbt;
use crate::mapping;
use crate::nbt;
use crate::nbt::NbtCompound;
use crate::nbt::NbtTag;
use crate::shape;
use crate::shape::Shape;
use crate::target::Target;
use crate::text;
use crate::types;
use crate::types::Component;
use crate::types::Item;
use crate::types::ItemComponent;
use crate::types::Stack;
use crate::version;
use crate::version::Version;
use crate::wire;
use crate::wire::ReadingError;

verus! {

// --- payloads with stacks inside ---------------------------------------------------------------

/// One place of a list of stacks in the client's form; where places may be empty
/// each has a flag.
pub open spec fn place_mapped(s: Seq<u8>, flagged: bool, to: &Target) -> Option<(Seq<u8>, Seq<u8>)>
    decreases s.len(), 0int, 0nat,
{
    if flagged && s.len() == 0 {
        None
    } else if flagged && s[0] == 0 {
        Some((wire::enc_bool(false), s.skip(1)))
    } else {
        let t = if flagged {
            s.skip(1)
        } else {
            s
        };
        let head = if flagged {
            wire::enc_bool(true)
        } else {
            seq![]
        };
        proof {
            types::lemma_template_weight(t, to.cat);
        }
        match types::take_template(t, to.cat) {
            Some((stack, rest)) => match types::enc_template(stack_to_version(stack, to)) {
                Some(bytes) => Some((head + bytes, rest)),
                None => None,
            },
            None => None,
        }
    }
}

/// `n` places of a list of stacks in the client's form. Each is at least one byte
/// long.
pub open spec fn stacks_mapped(n: nat, s: Seq<u8>, flagged: bool, to: &Target) -> Option<(Seq<u8>, Seq<u8>)>
    decreases s.len(), 1int, n,
{
    if n == 0 {
        Some((seq![], s))
    } else {
        match place_mapped(s, flagged, to) {
            Some((bytes, rest)) => if rest.len() < s.len() {
                shape::after(bytes, stacks_mapped((n - 1) as nat, rest, flagged, to))
            } else {
                None
            },
            None => None,
        }
    }
}

/// A list of stacks in the client's form, with nothing behind it.
pub open spec fn stack_list_mapped(native: Seq<u8>, flagged: bool, to: &Target) -> Option<Seq<u8>>
    decreases native.len(), 0int, 0nat,
{
    match wire::take_var_int(native) {
        Some((n, s)) => if n < 0 || n > item_component::MAX_ENTRIES {
            None
        } else {
            proof {
                types::lemma_var_int_shorter(native);
            }
            match stacks_mapped(n as nat, s, flagged, to) {
                Some((body, rest)) => if rest.len() == 0 {
                    Some(wire::enc_var_int(n) + body)
                } else {
                    None
                },
                None => None,
            }
        },
        None => None,
    }
}

/// One stack in the client's form, with nothing behind it.
pub open spec fn stack_mapped(native: Seq<u8>, to: &Target) -> Option<Seq<u8>>
    decreases native.len(), 0int, 0nat,
{
    proof {
        types::lemma_template_weight(native, to.cat);
    }
    match types::take_template(native, to.cat) {
        Some((stack, rest)) => if rest.len() == 0 {
            types::enc_template(stack_to_version(stack, to))
        } else {
            None
        },
        None => None,
    }
}

/// A payload in the server's layout with its ids carried over to the client.
pub open spec fn payload_mapped(component: DataComponent, native: Seq<u8>, to: &Target) -> Option<Seq<u8>>
    decreases native.len(), 1int, 0nat,
{
    match component {
        DataComponent::Trim
        | DataComponent::Instrument
        | DataComponent::ProvidesTrimMaterial => item_component::holders_renamed(
            native,
            version::V_26_3,
            to.version,
            component,
            to.cat,
        ),
        DataComponent::JukeboxPlayable => if to.version < version::V_26_3 {
            item_component::value_renamed(
                native,
                version::V_26_3,
                to.version,
                wire::key("jukebox_song"),
                to.cat,
            )
        } else {
            Some(native)
        },
        DataComponent::Enchantments | DataComponent::StoredEnchantments => item_component::levels_carried(
            native,
            to.ids.enchantments@,
            false,
        ),
        DataComponent::AttributeModifiers => item_component::attributes_mapped(
            native,
            to.ids.attributes@,
            to.cat,
        ),
        DataComponent::MapDecorations => if to.version < version::V_26_3 {
            item_component::decorations_downgraded(native)
        } else {
            Some(native)
        },
        DataComponent::Consumable | DataComponent::DeathProtection => if to.version < version::V_26_3 {
            item_component::consume_effects_copied(component, native, true, false, to.cat)
        } else {
            Some(native)
        },
        DataComponent::EntityData => item_component::leading_mapped(native, to.ids.entities@),
        DataComponent::BlockEntityData => item_component::leading_mapped(native, to.ids.blockentities@),
        DataComponent::PaintingVariant => item_component::holder_mapped(native, to.ids.paintings@),
        DataComponent::CanPlaceOn | DataComponent::CanBreak => item_component::block_predicates_mapped(
            native,
            to.ids.blocks@,
            to.cat,
        ),
        DataComponent::ChargedProjectiles | DataComponent::BundleContents => if to.version >= version::V_1_20_5 {
            stack_list_mapped(native, false, to)
        } else {
            Some(native)
        },
        DataComponent::Container => if to.version >= version::V_1_20_5 {
            stack_list_mapped(native, true, to)
        } else {
            Some(native)
        },
        DataComponent::UseRemainder | DataComponent::SulfurCubeContent => if to.version >= version::V_1_20_5 {
            stack_mapped(native, to)
        } else {
            Some(native)
        },
        _ => Some(native),
    }
}

/// A payload in the client's layout; nothing where it cannot be expressed there.
pub open spec fn payload_to_version(
    component: DataComponent,
    native: Seq<u8>,
    to: &Target,
    show_in_tooltip: bool,
) -> Option<Seq<u8>>
    decreases native.len(), 2int, 0nat,
{
    match payload_mapped(component, native, to) {
        Some(mapped) => if to.version >= version::V_26_3 || to.version >= item_component::floor_of(component) {
            Some(mapped)
        } else {
            item_component::adapted(component, mapped, to.version, show_in_tooltip, to.cat)
        },
        None => None,
    }
}

// --- food before 1.21.2 ---------------------------------------------------------------------------

/// An effect of a food: its id in the release, its parameters, its chance.
#[verifier::ext_equal]
pub struct FoodEffect {
    pub id: i32,
    pub data: Seq<u8>,
}

/// `n` status effects, those that the release has put behind `kept`.
pub open spec fn take_statuses(kept: Seq<FoodEffect>, n: nat, s: Seq<u8>, to: &Target) -> Option<
    (Seq<FoodEffect>, Seq<u8>),
>
    decreases n,
{
    if n == 0 {
        Some((kept, s))
    } else {
        match wire::take_var_int(s) {
            Some((id, t)) => match shape::take_shape(Shape::Effect, t, to.cat, version::V_26_3) {
                Some((data, rest)) => take_statuses(
                    match item_nbt::effect_id(to.cat, id, to.version) {
                        Some(target) => kept.push(FoodEffect { id: target, data }),
                        None => kept,
                    },
                    (n - 1) as nat,
                    rest,
                    to,
                ),
                None => None,
            },
            None => None,
        }
    }
}

/// Effects of a food as it lists them, each with the chance they share.
pub open spec fn enc_statuses(effects: Seq<FoodEffect>, probability: u32) -> Seq<u8>
    decreases effects.len(),
{
    if effects.len() == 0 {
        seq![]
    } else {
        enc_statuses(effects.drop_last(), probability) + (wire::enc_var_int(effects.last().id)
            + effects.last().data + wire::enc_u32(probability))
    }
}

/// `n` consume effects: the status effects among them counted and written behind
/// `body`, the others read past.
pub open spec fn take_food_effects(count: nat, body: Seq<u8>, n: nat, s: Seq<u8>, to: &Target) -> Option<
    (nat, Seq<u8>, Seq<u8>),
>
    decreases n,
{
    if n == 0 {
        Some((count, body, s))
    } else {
        match wire::take_var_int(s) {
            Some((kind, t)) => if kind != 0 {
                match item_component::effect_tail(t, kind, true, false, to.cat) {
                    Some((bytes, rest)) => take_food_effects(count, body, (n - 1) as nat, rest, to),
                    None => None,
                }
            } else {
                match wire::take_var_int(t) {
                    Some((statuses, u)) => if statuses < 0 || statuses > item_component::MAX_ENTRIES {
                        None
                    } else {
                        match take_statuses(seq![], statuses as nat, u, to) {
                            Some((kept, v)) => match wire::take_u32(v) {
                                Some((probability, rest)) => take_food_effects(
                                    count + kept.len(),
                                    body + enc_statuses(kept, probability),
                                    (n - 1) as nat,
                                    rest,
                                    to,
                                ),
                                None => None,
                            },
                            None => None,
                        }
                    },
                    None => None,
                }
            },
            None => None,
        }
    }
}

/// The time a food takes by default: 1.6 seconds, as the bits of a float.
pub const DEFAULT_EAT_SECONDS: u32 = 0x3fcc_cccd;

/// The eating time and the status effects of a consumable, counted and written;
/// the defaults where there is none.
pub open spec fn consumable_parts(consumable: Option<Seq<u8>>, to: &Target) -> Option<(u32, nat, Seq<u8>)> {
    match consumable {
        None => Some((DEFAULT_EAT_SECONDS, 0, seq![])),
        Some(data) => match wire::take_u32(data) {
            Some((seconds, s)) => match shape::drop_shape(
                shape::three(Shape::VarInt, shape::sound(), Shape::Bool),
                s,
                to.cat,
                version::V_26_3,
            ) {
                Some(t) => match wire::take_var_int(t) {
                    Some((n, u)) => if n < 0 || n > item_component::MAX_ENTRIES {
                        None
                    } else {
                        match take_food_effects(0, seq![], n as nat, u, to) {
                            Some((count, body, rest)) => if rest.len() == 0 && count <= i32::MAX {
                                Some((seconds, count, body))
                            } else {
                                None
                            },
                            None => None,
                        }
                    },
                    None => None,
                },
                None => None,
            },
            None => None,
        },
    }
}

/// The fields of a food component, with nothing behind them.
pub open spec fn food_parts(food: Seq<u8>) -> Option<(i32, u32, bool)> {
    match wire::take_var_int(food) {
        Some((nutrition, s)) => match wire::take_u32(s) {
            Some((saturation, t)) => match wire::take_bool(t) {
                Some((always, rest)) => if rest.len() == 0 {
                    Some((nutrition, saturation, always))
                } else {
                    None
                },
                None => None,
            },
            None => None,
        },
        None => None,
    }
}

/// The stack that a food leaves behind, in the client's form.
pub open spec fn remainder_mapped(remainder: Option<Seq<u8>>, to: &Target) -> Option<Seq<u8>>
    decreases
            (match remainder {
                Some(data) => data.len(),
                None => 0,
            }),
            0int,
            0nat,
{
    match remainder {
        Some(data) => {
            proof {
                types::lemma_template_weight(data, to.cat);
            }
            match types::take_template(data, to.cat) {
                Some((stack, rest)) => if rest.len() == 0 {
                    types::enc_item(stack_to_version(stack, to), to.version, false)
                } else {
                    None
                },
                None => None,
            }
        },
        None => types::enc_item(Stack::Empty, to.version, false),
    }
}

/// A food before 1.21.2, which holds what became the consumable and the use
/// remainder: from 1.21 on its eating time and its remainder, and always its
/// effects.
pub open spec fn food_adapted(
    food: Seq<u8>,
    consumable: Option<Seq<u8>>,
    remainder: Option<Seq<u8>>,
    to: &Target,
) -> Option<Seq<u8>>
    decreases
            (match remainder {
                Some(data) => data.len(),
                None => 0,
            }),
            1int,
            0nat,
{
    match food_parts(food) {
        Some((nutrition, saturation, always)) => match consumable_parts(consumable, to) {
            Some((seconds, count, effects)) => {
                let head = wire::enc_var_int(nutrition) + wire::enc_u32(saturation) + wire::enc_bool(always);
                if to.version >= version::V_1_21 {
                    match remainder_mapped(remainder, to) {
                        Some(bytes) => Some(
                            head + wire::enc_u32(seconds) + bytes + wire::enc_var_int(count as i32) + effects,
                        ),
                        None => None,
                    }
                } else {
                    Some(head + wire::enc_var_int(count as i32) + effects)
                }
            },
            None => None,
        },
        None => None,
    }
}

// --- stacks --------------------------------------------------------------------------------------------

/// The client's id of a component. 26.2 has one animation component where the
/// server has two.
pub open spec fn component_id_mapped(id: i32, component: DataComponent, to: &Target) -> Option<i32> {
    if to.version == version::V_26_2 && (component == DataComponent::AttackAnimation || component
        == DataComponent::InteractAnimation) {
        Some(catalog::id_of(to.cat, DataComponent::AttackAnimation))
    } else {
        mapping::mapped(to.ids.data_component_type@, id)
    }
}

/// The client's id of a component that the server has.
pub open spec fn own_component_mapped(component: DataComponent, to: &Target) -> Option<i32> {
    component_id_mapped(catalog::id_of(to.cat, component), component, to)
}

pub open spec fn component_position(out: Seq<Component>, id: i32, i: int) -> Option<int>
    decreases out.len() - i,
{
    if i < 0 || i >= out.len() {
        None
    } else if out[i].id == id {
        Some(i)
    } else {
        component_position(out, id, i + 1)
    }
}

/// A component put in the place of an earlier one of its id, or else at the end.
pub open spec fn with_component(out: Seq<Component>, id: i32, data: Seq<u8>) -> Seq<Component> {
    match component_position(out, id, 0) {
        Some(i) => out.update(i, Component { id, data }),
        None => out.push(Component { id, data }),
    }
}

/// Whether a component leaves the stack because an old food holds it.
pub open spec fn is_food_part(component: DataComponent) -> bool {
    component == DataComponent::Food || component == DataComponent::Consumable || component
        == DataComponent::UseRemainder
}

/// One component of a stack in the client's form. Two that become one keep the
/// later payload.
pub open spec fn component_converted(out: Seq<Component>, added: Seq<Component>, i: int, to: &Target) -> Seq<Component>
    decreases types::weight(added), 2int, 1nat,
{
    if i < 0 || i >= added.len() {
        out
    } else {
        proof {
            types::lemma_weight_index(added, i);
        }
        match catalog::component_of(to.cat, added[i].id) {
            Some(component) => if to.version < version::V_1_21_2 && is_food_part(component) {
                out
            } else {
                match component_id_mapped(added[i].id, component, to) {
                    Some(id) => match payload_to_version(
                        component,
                        added[i].data,
                        to,
                        !item_nbt::hidden_in_tooltip(added, component, true, to.cat),
                    ) {
                        Some(data) => with_component(out, id, data),
                        None => out,
                    },
                    None => out,
                }
            },
            None => out,
        }
    }
}

pub open spec fn components_converted(out: Seq<Component>, added: Seq<Component>, i: int, to: &Target) -> Seq<Component>
    decreases types::weight(added), 3int, (added.len() - i) as nat,
{
    if i < 0 || i >= added.len() {
        out
    } else {
        components_converted(component_converted(out, added, i, to), added, i + 1, to)
    }
}

/// The tooltip lines for enchantments that the client has no id for.
pub open spec fn missing_enchantments(lines: Seq<Seq<u8>>, added: Seq<Component>, i: int, to: &Target) -> Seq<Seq<u8>>
    decreases added.len() - i,
{
    if i < 0 || i >= added.len() {
        lines
    } else {
        missing_enchantments(
            match catalog::component_of(to.cat, added[i].id) {
                Some(DataComponent::Enchantments) => item_nbt::unsupported_lines(added[i].data, lines, to),
                Some(DataComponent::StoredEnchantments) => item_nbt::unsupported_lines(
                    added[i].data,
                    lines,
                    to,
                ),
                _ => lines,
            },
            added,
            i + 1,
            to,
        )
    }
}

/// The food component of a client before 1.21.2.
pub open spec fn legacy_food(added: Seq<Component>, to: &Target) -> Option<Seq<u8>>
    decreases types::weight(added), 2int, 0nat,
{
    if to.version < version::V_1_21_2 {
        match item_nbt::data_of(added, DataComponent::Food, to.cat) {
            Some(food) => {
                proof {
                    lemma_data_weight(added, catalog::id_of(to.cat, DataComponent::UseRemainder), 0);
                }
                food_adapted(
                    food,
                    item_nbt::data_of(added, DataComponent::Consumable, to.cat),
                    item_nbt::data_of(added, DataComponent::UseRemainder, to.cat),
                    to,
                )
            },
            None => None,
        }
    } else {
        None
    }
}

pub proof fn lemma_data_weight(added: Seq<Component>, id: i32, i: int)
    ensures
        item_nbt::data_from(added, id, i) matches Some(data) ==> data.len() <= types::weight(added),
    decreases added.len() - i,
{
    if 0 <= i < added.len() {
        if added[i].id == id {
            types::lemma_weight_index(added, i);
        } else {
            lemma_data_weight(added, id, i + 1);
        }
    }
}

/// A stack with its old food put in.
pub open spec fn with_food(out: Seq<Component>, food: Option<Seq<u8>>, to: &Target) -> Seq<Component> {
    match food {
        Some(data) => match own_component_mapped(DataComponent::Food, to) {
            Some(id) => out.push(Component { id, data }),
            None => out,
        },
        None => out,
    }
}

/// A stack with tooltip lines put before its lore.
pub open spec fn with_lines(out: Seq<Component>, lines: Seq<Seq<u8>>, to: &Target) -> Seq<Component> {
    if lines.len() == 0 {
        out
    } else {
        match own_component_mapped(DataComponent::Lore, to) {
            Some(id) => match component_position(out, id, 0) {
                Some(i) => match item_nbt::lore_extended(Some(out[i].data), lines) {
                    Some(data) => out.update(i, Component { id, data }),
                    None => out,
                },
                None => match item_nbt::lore_extended(None, lines) {
                    Some(data) => out.push(Component { id, data }),
                    None => out,
                },
            },
            None => out,
        }
    }
}

/// The model component that marks a stand-in, in the client's layout.
pub open spec fn model_payload_mapped(value: i32, to: &Target) -> Option<Seq<u8>> {
    if to.version >= version::V_1_21_4 {
        Some(item_component::enc_model(value))
    } else {
        item_component::adapted(
            DataComponent::CustomModelData,
            item_component::enc_model(value),
            to.version,
            true,
            to.cat,
        )
    }
}

/// A stack with the mark of a stand-in, where it has no model of its own.
pub open spec fn with_model(out: Seq<Component>, model: Option<i32>, to: &Target) -> Seq<Component> {
    match model {
        Some(value) => match own_component_mapped(DataComponent::CustomModelData, to) {
            Some(id) => match model_payload_mapped(value, to) {
                Some(data) => if component_position(out, id, 0) is Some {
                    out
                } else {
                    out.push(Component { id, data })
                },
                None => out,
            },
            None => out,
        },
        None => out,
    }
}

/// The client's id of a removed component.
pub open spec fn removed_mapped(id: i32, to: &Target) -> Option<i32> {
    let by_component = match catalog::component_of(to.cat, id) {
        Some(component) => component_id_mapped(id, component, to),
        None => None,
    };
    match by_component {
        Some(mapped) => Some(mapped),
        None => mapping::mapped(to.ids.data_component_type@, id),
    }
}

/// The client's ids of the removed components, each once.
pub open spec fn all_removed_mapped(out: Seq<i32>, removed: Seq<i32>, i: int, to: &Target) -> Seq<i32>
    decreases removed.len() - i,
{
    if i < 0 || i >= removed.len() {
        out
    } else {
        all_removed_mapped(
            match removed_mapped(removed[i], to) {
                Some(id) => if out.contains(id) {
                    out
                } else {
                    out.push(id)
                },
                None => out,
            },
            removed,
            i + 1,
            to,
        )
    }
}

/// A count in the byte of the old form.
pub open spec fn count_i8(count: i32) -> i8 {
    if -128 <= count <= 127 {
        count as i8
    } else {
        127i8
    }
}

/// The NBT of an old stack, with the mark of a stand-in where it has no model
/// of its own.
pub open spec fn with_model_tag(c: Option<Seq<nbt::Entry>>, model: Option<i32>) -> Option<Seq<nbt::Entry>> {
    match model {
        Some(value) => {
            let entries = match c {
                Some(entries) => entries,
                None => seq![],
            };
            if c is Some && nbt::int_in(entries, wire::key("CustomModelData")) is Some {
                c
            } else {
                Some(nbt::put(entries, wire::key("CustomModelData"), nbt::int_tag(value)))
            }
        },
        None => c,
    }
}

/// A stack of the server in the client's form. A stack that is in another form
/// already stays, and one whose item the client does not have is empty.
pub open spec fn stack_to_version(stack: Stack, to: &Target) -> Stack
    decreases item_nbt::stack_weight(stack), 4int, 0nat,
{
    match stack {
        Stack::Structured { count, id, added, removed } => match mapping::mapped(to.ids.items@, id) {
            Some(target_id) => {
                let model = mapping::model_of(to.ids.custom_model_data@, id);
                if to.version < types::FIRST_STRUCTURED {
                    Stack::Nbt {
                        id: target_id,
                        count: count_i8(count),
                        nbt: match with_model_tag(item_nbt::nbt_form(added, to), model) {
                            Some(c) => Some(nbt::compound_tag(c)),
                            None => None,
                        },
                    }
                } else {
                    let converted = components_converted(seq![], added, 0, to);
                    let fed = with_food(converted, legacy_food(added, to), to);
                    let lined = with_lines(fed, missing_enchantments(seq![], added, 0, to), to);
                    Stack::Structured {
                        count,
                        id: target_id,
                        added: with_model(lined, model, to),
                        removed: all_removed_mapped(seq![], removed, 0, to),
                    }
                }
            },
            None => Stack::Empty,
        },
        _ => stack,
    }
}


// --- payloads with stacks inside, executed ----------------------------------------------------------------

/// Writes one stack that cannot be empty in the client's form.
fn write_stack_mapped(out: &mut Vec<u8>, item: &Item, to: &Target) -> (res: Result<(), ReadingError>)
    ensures
        match types::enc_template(stack_to_version(item@, to)) {
            Some(bytes) => res is Ok && final(out)@ == old(out)@ + bytes,
            None => res is Err,
        },
    decreases item_nbt::stack_weight(item@), 5int, 0nat,
{
    let mapped: Item = StructuredItemRewriter::to_version(item, to);
    match types::write_template(out, &mapped) {
        Ok(_) => Ok(()),
        Err(_) => Err(ReadingError::Malformed),
    }
}

fn nested_place(r: &mut &[u8], out: &mut Vec<u8>, flagged: bool, to: &Target) -> (res: Result<(), ReadingError>)
    ensures
        match place_mapped(old(r)@, flagged, to) {
            Some((bytes, rest)) => res is Ok && final(out)@ == old(out)@ + bytes && final(r)@ == rest,
            None => res is Err,
        },
    decreases old(r)@.len(), 0int, 0nat,
{
    if flagged {
        let present: bool = wire::get_bool(r)?;
        wire::write_bool(out, present);
        if !present {
            return Ok(());
        }
    }
    proof {
        types::lemma_template_weight(r@, to.cat);
    }
    let item: Item = types::get_template(r, to.cat)?;
    write_stack_mapped(out, &item, to)
}

fn nested_places(n: u32, r: &mut &[u8], out: &mut Vec<u8>, flagged: bool, to: &Target) -> (res: Result<
    (),
    ReadingError,
>)
    ensures
        match stacks_mapped(n as nat, old(r)@, flagged, to) {
            Some((bytes, rest)) => res is Ok && final(out)@ == old(out)@ + bytes && final(r)@ == rest,
            None => res is Err,
        },
    decreases old(r)@.len(), 1int, n as nat,
{
    if n == 0 {
        assert(out@ =~= old(out)@ + Seq::<u8>::empty());
        return Ok(());
    }
    let length: usize = r.len();
    nested_place(r, out, flagged, to)?;
    if r.len() >= length {
        return Err(ReadingError::Malformed);
    }
    nested_places(n - 1, r, out, flagged, to)
}

/// A list of stacks in the client's form; where places may be empty each has a
/// flag.
pub fn nested_stacks(native: &[u8], flagged: bool, to: &Target) -> (res: Result<Vec<u8>, ReadingError>)
    ensures
        item_component::same_result(res, stack_list_mapped(native@, flagged, to)),
    decreases native@.len(), 0int, 0nat,
{
    let mut r: &[u8] = native;
    let n: i32 = wire::get_var_int(&mut r)?;
    if n < 0 || n > item_component::MAX_ENTRIES {
        return Err(ReadingError::Malformed);
    }
    proof {
        types::lemma_var_int_shorter(native@);
    }
    let mut out: Vec<u8> = wire::var_int_bytes(n);
    nested_places(n as u32, &mut r, &mut out, flagged, to)?;
    if r.len() != 0 {
        return Err(ReadingError::Malformed);
    }
    Ok(out)
}

/// One stack in the client's form.
pub fn nested_stack(native: &[u8], to: &Target) -> (res: Result<Vec<u8>, ReadingError>)
    ensures
        item_component::same_result(res, stack_mapped(native@, to)),
    decreases native@.len(), 0int, 0nat,
{
    let mut r: &[u8] = native;
    proof {
        types::lemma_template_weight(native@, to.cat);
    }
    let item: Item = types::get_template(&mut r, to.cat)?;
    if r.len() != 0 {
        return Err(ReadingError::Malformed);
    }
    let mut out: Vec<u8> = Vec::new();
    write_stack_mapped(&mut out, &item, to)?;
    Ok(out)
}

/// Carries the ids of a payload over to the client.
fn map_nested_ids(component: DataComponent, native: &[u8], to: &Target) -> (res: Result<Vec<u8>, ReadingError>)
    ensures
        item_component::same_result(res, payload_mapped(component, native@, to)),
    decreases native@.len(), 1int, 0nat,
{
    match component {
        DataComponent::Trim
        | DataComponent::Instrument
        | DataComponent::ProvidesTrimMaterial => item_component::map_holder_ids(
            version::V_26_3,
            to.version,
            native,
            component,
            to.cat,
        ),
        DataComponent::JukeboxPlayable => if to.version < version::V_26_3 {
            item_component::map_registry_value(
                version::V_26_3,
                to.version,
                native,
                "jukebox_song".as_bytes(),
                to.cat,
            )
        } else {
            Ok(slice_to_vec(native))
        },
        DataComponent::Enchantments | DataComponent::StoredEnchantments => item_component::carry_levels(
            native,
            &to.ids.enchantments,
            false,
        ),
        DataComponent::AttributeModifiers => item_component::attribute_ids(native, to.ids, to.cat),
        DataComponent::MapDecorations => if to.version < version::V_26_3 {
            item_component::map_decoration_types(native)
        } else {
            Ok(slice_to_vec(native))
        },
        DataComponent::Consumable | DataComponent::DeathProtection => if to.version < version::V_26_3 {
            item_component::consume_effect_payload(component, native, true, false, to.cat)
        } else {
            Ok(slice_to_vec(native))
        },
        DataComponent::EntityData => item_component::leading_id(native, &to.ids.entities),
        DataComponent::BlockEntityData => item_component::leading_id(native, &to.ids.blockentities),
        DataComponent::PaintingVariant => item_component::holder_id(native, &to.ids.paintings),
        DataComponent::CanPlaceOn | DataComponent::CanBreak => item_component::map_block_predicates(
            native,
            to.ids,
            to.cat,
        ),
        DataComponent::ChargedProjectiles | DataComponent::BundleContents => if to.version >= version::V_1_20_5 {
            nested_stacks(native, false, to)
        } else {
            Ok(slice_to_vec(native))
        },
        DataComponent::Container => if to.version >= version::V_1_20_5 {
            nested_stacks(native, true, to)
        } else {
            Ok(slice_to_vec(native))
        },
        DataComponent::UseRemainder | DataComponent::SulfurCubeContent => if to.version >= version::V_1_20_5 {
            nested_stack(native, to)
        } else {
            Ok(slice_to_vec(native))
        },
        _ => Ok(slice_to_vec(native)),
    }
}

/// A payload of the server in the client's layout, with the visibility that the
/// server's tooltip display gives it.
pub fn to_version_with_tooltip(
    component: DataComponent,
    native: &[u8],
    to: &Target,
    show_in_tooltip: bool,
) -> (res: Option<Vec<u8>>)
    ensures
        item_component::same_option(res, payload_to_version(component, native@, to, show_in_tooltip)),
    decreases native@.len(), 2int, 0nat,
{
    match map_nested_ids(component, native, to) {
        Ok(mapped) => {
            if to.version >= version::V_26_3 || to.version >= item_component::shape_floor(component) {
                return Some(mapped);
            }
            item_component::adapt(component, mapped, to.version, show_in_tooltip, to.cat)
        },
        Err(_) => None,
    }
}

/// A payload of the server in the client's layout, visible in tooltips.
pub fn to_version(component: DataComponent, native: &[u8], to: &Target) -> (res: Option<Vec<u8>>)
    ensures
        item_component::same_option(res, payload_to_version(component, native@, to, true)),
{
    to_version_with_tooltip(component, native, to, true)
}

// --- food before 1.21.2, executed -----------------------------------------------------------------------

struct FoodEffectBytes {
    id: i32,
    data: Vec<u8>,
}

spec fn food_views(effects: Seq<FoodEffectBytes>) -> Seq<FoodEffect> {
    Seq::new(effects.len(), |i: int| FoodEffect { id: effects[i].id, data: effects[i].data@ })
}

#[verifier::loop_isolation(false)]
fn read_statuses(n: u32, r: &mut &[u8], to: &Target) -> (res: Result<Vec<FoodEffectBytes>, ReadingError>)
    ensures
        match take_statuses(seq![], n as nat, old(r)@, to) {
            Some((kept, rest)) => res is Ok && food_views(res->Ok_0@) == kept && final(r)@ == rest,
            None => res is Err,
        },
        res is Ok ==> res->Ok_0@.len() <= n,
{
    let mut kept: Vec<FoodEffectBytes> = Vec::new();
    let mut left: u32 = n;
    assert(food_views(kept@) =~= seq![]);
    while left > 0
        invariant
            kept@.len() + left <= n,
            take_statuses(seq![], n as nat, old(r)@, to) == take_statuses(
                food_views(kept@),
                left as nat,
                r@,
                to,
            ),
        decreases left,
    {
        let ghost before = food_views(kept@);
        let id: i32 = wire::get_var_int(r)?;
        let data: &[u8] = shape::get_shape(&Shape::Effect, r, to.cat, version::V_26_3)?;
        if let Some(target) = item_nbt::legacy_effect_id(to.cat, id, to.version) {
            kept.push(FoodEffectBytes { id: target, data: slice_to_vec(data) });
            assert(food_views(kept@) =~= before.push(FoodEffect { id: target, data: data@ }));
        }
        left = left - 1;
    }
    Ok(kept)
}

fn write_statuses(out: &mut Vec<u8>, effects: &Vec<FoodEffectBytes>, probability: u32)
    ensures
        final(out)@ == old(out)@ + enc_statuses(food_views(effects@), probability),
{
    let ghost views = food_views(effects@);
    let mut i: usize = 0;
    assert(views.take(0) =~= seq![]);
    assert(out@ =~= old(out)@ + enc_statuses(views.take(0), probability));
    while i < effects.len()
        invariant
            i <= effects.len(),
            views == food_views(effects@),
            out@ == old(out)@ + enc_statuses(views.take(i as int), probability),
        decreases effects.len() - i,
    {
        let mut entry: Vec<u8> = wire::var_int_bytes(effects[i].id);
        wire::write_bytes(&mut entry, effects[i].data.as_slice());
        wire::write_u32(&mut entry, probability);
        wire::write_bytes(out, entry.as_slice());
        proof {
            let next = views.take(i + 1);
            assert(next.drop_last() =~= views.take(i as int));
            assert(next.last() == views[i as int]);
            assert(out@ =~= old(out)@ + enc_statuses(next, probability));
        }
        i = i + 1;
    }
    assert(views.take(views.len() as int) =~= views);
}

#[verifier::loop_isolation(false)]
fn read_food_effects(n: u32, r: &mut &[u8], to: &Target) -> (res: Result<(u64, Vec<u8>), ReadingError>)
    requires
        n <= 4096,
    ensures
        match take_food_effects(0, seq![], n as nat, old(r)@, to) {
            Some((count, body, rest)) => res is Ok && res->Ok_0.0 as nat == count && res->Ok_0.1@ == body
                && final(r)@ == rest,
            None => res is Err,
        },
{
    let mut body: Vec<u8> = Vec::new();
    let mut count: u64 = 0;
    let mut left: u32 = n;
    while left > 0
        invariant
            left <= n <= 4096,
            count <= 4096 * (n - left),
            take_food_effects(0, seq![], n as nat, old(r)@, to) == take_food_effects(
                count as nat,
                body@,
                left as nat,
                r@,
                to,
            ),
        decreases left,
    {
        let kind: i32 = wire::get_var_int(r)?;
        if kind != 0 {
            let mut unused: Vec<u8> = Vec::new();
            item_component::copy_consume_effect_tail(r, &mut unused, kind, true, false, to.cat)?;
        } else {
            let statuses: i32 = wire::get_var_int(r)?;
            if statuses < 0 || statuses > item_component::MAX_ENTRIES {
                return Err(ReadingError::Malformed);
            }
            let kept: Vec<FoodEffectBytes> = read_statuses(statuses as u32, r, to)?;
            let probability: u32 = wire::get_u32(r)?;
            write_statuses(&mut body, &kept, probability);
            count = count + kept.len() as u64;
        }
        left = left - 1;
    }
    Ok((count, body))
}

fn read_consumable(consumable: Option<&[u8]>, to: &Target) -> (res: Result<(u32, i32, Vec<u8>), ReadingError>)
    ensures
        match consumable_parts(
            match consumable {
                Some(data) => Some(data@),
                None => None,
            },
            to,
        ) {
            Some((seconds, count, body)) => res is Ok && res->Ok_0.0 == seconds && res->Ok_0.1 == count as i32
                && res->Ok_0.2@ == body,
            None => res is Err,
        },
{
    let mut r: &[u8] = match consumable {
        Some(data) => data,
        None => {
            return Ok((DEFAULT_EAT_SECONDS, 0, Vec::new()));
        },
    };
    let seconds: u32 = wire::get_u32(&mut r)?;
    let head: Shape = shape::three(Shape::VarInt, shape::sound(), Shape::Bool);
    shape::skip(&head, &mut r, to.cat, version::V_26_3)?;
    let n: i32 = wire::get_var_int(&mut r)?;
    if n < 0 || n > item_component::MAX_ENTRIES {
        return Err(ReadingError::Malformed);
    }
    let (count, body): (u64, Vec<u8>) = read_food_effects(n as u32, &mut r, to)?;
    if r.len() != 0 || count > 0x7fff_ffff {
        return Err(ReadingError::Malformed);
    }
    Ok((seconds, count as i32, body))
}

fn read_food(food: &[u8]) -> (res: Result<(i32, u32, bool), ReadingError>)
    ensures
        match food_parts(food@) {
            Some(parts) => res == Ok::<(i32, u32, bool), ReadingError>(parts),
            None => res is Err,
        },
{
    let mut r: &[u8] = food;
    let nutrition: i32 = wire::get_var_int(&mut r)?;
    let saturation: u32 = wire::get_u32(&mut r)?;
    let always: bool = wire::get_bool(&mut r)?;
    if r.len() != 0 {
        return Err(ReadingError::Malformed);
    }
    Ok((nutrition, saturation, always))
}

pub open spec fn slice_opt(v: Option<&[u8]>) -> Option<Seq<u8>> {
    match v {
        Some(v) => Some(v@),
        None => None,
    }
}

fn write_remainder(out: &mut Vec<u8>, remainder: Option<&[u8]>, to: &Target) -> (res: Result<(), ReadingError>)
    ensures
        match remainder_mapped(slice_opt(remainder), to) {
            Some(bytes) => res is Ok && final(out)@ == old(out)@ + bytes,
            None => res is Err,
        },
    decreases
            (match remainder {
                Some(data) => data@.len(),
                None => 0,
            }),
            0int,
            0nat,
{
    let mapped: Item = match remainder {
        Some(data) => {
            let mut r: &[u8] = data;
            proof {
                types::lemma_template_weight(data@, to.cat);
            }
            let item: Item = types::get_template(&mut r, to.cat)?;
            if r.len() != 0 {
                return Err(ReadingError::Malformed);
            }
            StructuredItemRewriter::to_version(&item, to)
        },
        None => Item::Empty,
    };
    match types::write_item(out, &mapped, to.version, false) {
        Ok(_) => Ok(()),
        Err(_) => Err(ReadingError::Malformed),
    }
}

/// Combines a food with its consumable and its use remainder into the food
/// component that clients before 1.21.2 have.
pub fn food_to_legacy(food: &[u8], consumable: Option<&[u8]>, remainder: Option<&[u8]>, to: &Target) -> (res: Result<
    Vec<u8>,
    ReadingError,
>)
    ensures
        item_component::same_result(
            res,
            food_adapted(food@, slice_opt(consumable), slice_opt(remainder), to),
        ),
    decreases
            (match remainder {
                Some(data) => data@.len(),
                None => 0,
            }),
            1int,
            0nat,
{
    let (nutrition, saturation, always): (i32, u32, bool) = read_food(food)?;
    let (seconds, count, effects): (u32, i32, Vec<u8>) = read_consumable(consumable, to)?;
    let mut out: Vec<u8> = wire::var_int_bytes(nutrition);
    wire::write_u32(&mut out, saturation);
    wire::write_bool(&mut out, always);
    if to.version >= version::V_1_21 {
        wire::write_u32(&mut out, seconds);
        write_remainder(&mut out, remainder, to)?;
    }
    wire::write_var_int(&mut out, count);
    wire::write_bytes(&mut out, effects.as_slice());
    Ok(out)
}

// --- stacks, executed --------------------------------------------------------------------------------------

pub fn map_component_id(id: i32, component: DataComponent, to: &Target) -> (res: Option<i32>)
    ensures
        res == component_id_mapped(id, component, to),
{
    if to.version == version::V_26_2 && (component == DataComponent::AttackAnimation || component
        == DataComponent::InteractAnimation) {
        Some(to.cat.component_id(DataComponent::AttackAnimation))
    } else {
        to.ids.data_component_type.map_id(id)
    }
}

fn map_own_component(component: DataComponent, to: &Target) -> (res: Option<i32>)
    ensures
        res == own_component_mapped(component, to),
{
    map_component_id(to.cat.component_id(component), component, to)
}

#[verifier::loop_isolation(false)]
fn find_component(out: &Vec<ItemComponent>, id: i32) -> (res: Option<usize>)
    ensures
        match res {
            Some(i) => i < out@.len() && component_position(types::component_views(out@), id, 0) == Some(i as int),
            None => component_position(types::component_views(out@), id, 0) is None,
        },
{
    let ghost views = types::component_views(out@);
    let mut i: usize = 0;
    while i < out.len()
        invariant
            i <= out.len(),
            component_position(views, id, 0) == component_position(views, id, i as int),
        decreases out.len() - i,
    {
        assert(views[i as int] == out@[i as int]@);
        if out[i].id == id {
            return Some(i);
        }
        i = i + 1;
    }
    None
}

fn put_component(out: &mut Vec<ItemComponent>, id: i32, data: Vec<u8>)
    ensures
        types::component_views(final(out)@) == with_component(types::component_views(old(out)@), id, data@),
{
    let ghost before = types::component_views(out@);
    let ghost view = data@;
    match find_component(out, id) {
        Some(i) => {
            out.set(i, ItemComponent { id, data });
            assert(types::component_views(out@) =~= before.update(i as int, Component { id, data: view }));
        },
        None => {
            out.push(ItemComponent { id, data });
            assert(types::component_views(out@) =~= before.push(Component { id, data: view }));
        },
    }
}

fn push_component(out: &mut Vec<ItemComponent>, id: i32, data: Vec<u8>)
    ensures
        types::component_views(final(out)@) == types::component_views(old(out)@).push(
            Component { id, data: data@ },
        ),
{
    let ghost before = types::component_views(out@);
    let ghost view = data@;
    out.push(ItemComponent { id, data });
    assert(types::component_views(out@) =~= before.push(Component { id, data: view }));
}

fn convert_component(out: &mut Vec<ItemComponent>, added: &Vec<ItemComponent>, i: usize, to: &Target)
    requires
        i < added@.len(),
    ensures
        types::component_views(final(out)@) == component_converted(
            types::component_views(old(out)@),
            types::component_views(added@),
            i as int,
            to,
        ),
    decreases types::weight(types::component_views(added@)), 2int, 1nat,
{
    proof {
        types::lemma_weight_index(types::component_views(added@), i as int);
        assert(types::component_views(added@)[i as int] == added@[i as int]@);
    }
    let component: DataComponent = match to.cat.component(added[i].id) {
        Some(component) => component,
        None => {
            return;
        },
    };
    if to.version < version::V_1_21_2 && (component == DataComponent::Food || component
        == DataComponent::Consumable || component == DataComponent::UseRemainder) {
        return;
    }
    let id: i32 = match map_component_id(added[i].id, component, to) {
        Some(id) => id,
        None => {
            return;
        },
    };
    let show: bool = !item_nbt::component_hidden_in_tooltip(added, component, true, to.cat);
    if let Some(data) = to_version_with_tooltip(component, added[i].data.as_slice(), to, show) {
        put_component(out, id, data);
    }
}

fn old_food(added: &Vec<ItemComponent>, to: &Target) -> (res: Option<Vec<u8>>)
    ensures
        item_component::same_option(res, legacy_food(types::component_views(added@), to)),
    decreases types::weight(types::component_views(added@)), 2int, 0nat,
{
    if to.version >= version::V_1_21_2 {
        return None;
    }
    match item_nbt::find(added, DataComponent::Food, to.cat) {
        Some(food) => {
            proof {
                lemma_data_weight(
                    types::component_views(added@),
                    catalog::id_of(to.cat, DataComponent::UseRemainder),
                    0,
                );
            }
            food_to_legacy(
                food,
                item_nbt::find(added, DataComponent::Consumable, to.cat),
                item_nbt::find(added, DataComponent::UseRemainder, to.cat),
                to,
            ).ok()
        },
        None => None,
    }
}

#[verifier::loop_isolation(false)]
fn find_missing_enchantments(added: &Vec<ItemComponent>, to: &Target) -> (res: Vec<Vec<u8>>)
    ensures
        item_nbt::text_views(res@) == missing_enchantments(seq![], types::component_views(added@), 0, to),
{
    let ghost views = types::component_views(added@);
    let mut lines: Vec<Vec<u8>> = Vec::new();
    let mut i: usize = 0;
    assert(item_nbt::text_views(lines@) =~= seq![]);
    while i < added.len()
        invariant
            i <= added.len(),
            missing_enchantments(seq![], views, 0, to) == missing_enchantments(
                item_nbt::text_views(lines@),
                views,
                i as int,
                to,
            ),
        decreases added.len() - i,
    {
        assert(views[i as int] == added@[i as int]@);
        match to.cat.component(added[i].id) {
            Some(DataComponent::Enchantments) => item_nbt::unsupported_enchantment_lore(
                added[i].data.as_slice(),
                &mut lines,
                to,
            ),
            Some(DataComponent::StoredEnchantments) => item_nbt::unsupported_enchantment_lore(
                added[i].data.as_slice(),
                &mut lines,
                to,
            ),
            _ => {},
        }
        i = i + 1;
    }
    lines
}

fn put_food(out: &mut Vec<ItemComponent>, food: Option<Vec<u8>>, to: &Target)
    ensures
        types::component_views(final(out)@) == with_food(
            types::component_views(old(out)@),
            nbt::bytes_opt(food),
            to,
        ),
{
    if let Some(data) = food {
        if let Some(id) = map_own_component(DataComponent::Food, to) {
            push_component(out, id, data);
        }
    }
}

fn put_lines(out: &mut Vec<ItemComponent>, lines: &Vec<Vec<u8>>, to: &Target)
    ensures
        types::component_views(final(out)@) == with_lines(
            types::component_views(old(out)@),
            item_nbt::text_views(lines@),
            to,
        ),
{
    if lines.len() == 0 {
        return;
    }
    let id: i32 = match map_own_component(DataComponent::Lore, to) {
        Some(id) => id,
        None => {
            return;
        },
    };
    let ghost before = types::component_views(out@);
    match find_component(out, id) {
        Some(i) => {
            assert(before[i as int] == out@[i as int]@);
            if let Some(data) = item_nbt::append_enchantment_lore(Some(out[i].data.as_slice()), lines) {
                let ghost view = data@;
                out.set(i, ItemComponent { id, data });
                assert(types::component_views(out@) =~= before.update(i as int, Component { id, data: view }));
            }
        },
        None => {
            if let Some(data) = item_nbt::append_enchantment_lore(None, lines) {
                push_component(out, id, data);
            }
        },
    }
}

fn put_model(out: &mut Vec<ItemComponent>, model: Option<i32>, to: &Target)
    ensures
        types::component_views(final(out)@) == with_model(types::component_views(old(out)@), model, to),
{
    if let Some(value) = model {
        if let Some(id) = map_own_component(DataComponent::CustomModelData, to) {
            let payload: Vec<u8> = item_component::model_payload(value);
            let data: Option<Vec<u8>> = if to.version >= version::V_1_21_4 {
                Some(payload)
            } else {
                item_component::adapt(DataComponent::CustomModelData, payload, to.version, true, to.cat)
            };
            if let Some(data) = data {
                if find_component(out, id).is_none() {
                    push_component(out, id, data);
                }
            }
        }
    }
}

fn map_removed_id(id: i32, to: &Target) -> (res: Option<i32>)
    ensures
        res == removed_mapped(id, to),
{
    if let Some(component) = to.cat.component(id) {
        if let Some(mapped) = map_component_id(id, component, to) {
            return Some(mapped);
        }
    }
    to.ids.data_component_type.map_id(id)
}

fn holds_id(ids: &Vec<i32>, id: i32) -> (res: bool)
    ensures
        res == ids@.contains(id),
{
    let mut i: usize = 0;
    while i < ids.len()
        invariant
            i <= ids.len(),
            forall|j: int| 0 <= j < i ==> ids@[j] != id,
        decreases ids.len() - i,
    {
        if ids[i] == id {
            assert(ids@.contains(id));
            return true;
        }
        i = i + 1;
    }
    false
}

#[verifier::loop_isolation(false)]
fn map_removed(removed: &Vec<i32>, to: &Target) -> (res: Vec<i32>)
    ensures
        res@ == all_removed_mapped(seq![], removed@, 0, to),
{
    let mut out: Vec<i32> = Vec::new();
    let mut i: usize = 0;
    while i < removed.len()
        invariant
            i <= removed.len(),
            all_removed_mapped(seq![], removed@, 0, to) == all_removed_mapped(out@, removed@, i as int, to),
        decreases removed.len() - i,
    {
        if let Some(id) = map_removed_id(removed[i], to) {
            if !holds_id(&out, id) {
                out.push(id);
            }
        }
        i = i + 1;
    }
    out
}

fn put_model_tag(c: Option<NbtCompound>, model: Option<i32>) -> (res: Option<NbtCompound>)
    ensures
        nbt::view_opt(res) == with_model_tag(nbt::view_opt(c), model),
{
    match model {
        Some(value) => {
            let mut entries: NbtCompound = match c {
                Some(entries) => {
                    if entries.get_int("CustomModelData".as_bytes()).is_some() {
                        return Some(entries);
                    }
                    entries
                },
                None => NbtCompound::new(),
            };
            entries.put_int("CustomModelData".as_bytes(), value);
            Some(entries)
        },
        None => c,
    }
}

/// The rewriter of stacks.
pub struct StructuredItemRewriter;

impl StructuredItemRewriter {
    /// A stack of the server in the client's form.
    pub fn to_version(item: &Item, to: &Target) -> (res: Item)
        ensures
            res@ == stack_to_version(item@, to),
        decreases item_nbt::stack_weight(item@), 4int, 0nat,
    {
        match item {
            Item::Structured { count, id, added, removed } => {
                let target_id: i32 = match to.ids.items.map_id(*id) {
                    Some(target_id) => target_id,
                    None => {
                        return Item::Empty;
                    },
                };
                let model: Option<i32> = to.ids.fallback_model(*id);
                if to.version < types::FIRST_STRUCTURED {
                    let c: Option<NbtCompound> = put_model_tag(item_nbt::components_to_nbt(added, to), model);
                    let nbt: Option<NbtTag> = match c {
                        Some(c) => Some(c.to_tag()),
                        None => None,
                    };
                    let count: i8 = if -128 <= *count && *count <= 127 {
                        *count as i8
                    } else {
                        127
                    };
                    return Item::Nbt { id: target_id, count, nbt };
                }
                let mut out: Vec<ItemComponent> = Vec::new();
                let mut i: usize = 0;
                assert(types::component_views(out@) =~= seq![]);
                while i < added.len()
                    invariant
                        i <= added.len(),
                        item@ matches Stack::Structured { added: views, .. } && views == types::component_views(
                            added@,
                        ),
                        components_converted(seq![], types::component_views(added@), 0, to)
                            == components_converted(
                            types::component_views(out@),
                            types::component_views(added@),
                            i as int,
                            to,
                        ),
                    decreases added.len() - i,
                {
                    convert_component(&mut out, added, i, to);
                    i = i + 1;
                }
                let food: Option<Vec<u8>> = old_food(added, to);
                put_food(&mut out, food, to);
                let lines: Vec<Vec<u8>> = find_missing_enchantments(added, to);
                put_lines(&mut out, &lines, to);
                put_model(&mut out, model, to);
                Item::Structured { count: *count, id: target_id, added: out, removed: map_removed(removed, to) }
            },
            _ => item.copy(),
        }
    }
}


// --- stacks back from the client -------------------------------------------------------------------------

/// The server's id of a client's component.
pub open spec fn component_id_native(id: i32, from: &Target) -> Option<i32> {
    if from.version == version::V_26_2 && id == catalog::id_of(from.cat, DataComponent::AttackAnimation) {
        Some(catalog::id_of(from.cat, DataComponent::AttackAnimation))
    } else {
        mapping::unmapped(from.ids.data_component_type@, id)
    }
}

pub fn map_component_id_from_client(id: i32, from: &Target) -> (res: Option<i32>)
    ensures
        res == component_id_native(id, from),
{
    let animation: i32 = from.cat.component_id(DataComponent::AttackAnimation);
    if from.version == version::V_26_2 && id == animation {
        Some(animation)
    } else {
        from.ids.data_component_type.unmap_id(id)
    }
}

pub open spec fn item_with_model(
    models: Seq<(u32, i32)>,
    i: int,
    model: i32,
    client_id: u32,
    slots: Seq<Option<u32>>,
) -> Option<i32>
    decreases models.len() - i,
{
    if i < 0 || i >= models.len() {
        None
    } else if models[i].1 == model && mapping::target_of(slots, models[i].0) == Some(client_id) && models[i].0
        <= i32::MAX {
        Some(models[i].0 as i32)
    } else {
        item_with_model(models, i + 1, model, client_id, slots)
    }
}

/// The item that a stand-in stands for, by the model that marks it.
pub open spec fn item_behind(client_id: i32, added: Seq<Component>, from: &Target) -> Option<i32> {
    match item_nbt::data_of(added, DataComponent::CustomModelData, from.cat) {
        Some(data) => match item_component::model_value(data) {
            Some(model) => if client_id < 0 {
                None
            } else {
                item_with_model(
                    from.ids.custom_model_data@,
                    0,
                    model,
                    client_id as u32,
                    from.ids.items@,
                )
            },
            None => None,
        },
        None => None,
    }
}

#[verifier::loop_isolation(false)]
fn restore_backported_item_id(client_id: i32, added: &Vec<ItemComponent>, from: &Target) -> (res: Option<i32>)
    ensures
        res == item_behind(client_id, types::component_views(added@), from),
{
    let model: i32 = match item_nbt::find(added, DataComponent::CustomModelData, from.cat) {
        Some(data) => match item_component::legacy_custom_model_data(data) {
            Some(model) => model,
            None => {
                return None;
            },
        },
        None => {
            return None;
        },
    };
    if client_id < 0 {
        return None;
    }
    let mut i: usize = 0;
    while i < from.ids.custom_model_data.len()
        invariant
            i <= from.ids.custom_model_data.len(),
            item_with_model(from.ids.custom_model_data@, 0, model, client_id as u32, from.ids.items@)
                == item_with_model(
                from.ids.custom_model_data@,
                i as int,
                model,
                client_id as u32,
                from.ids.items@,
            ),
        decreases from.ids.custom_model_data.len() - i,
    {
        let (source, value): (u32, i32) = from.ids.custom_model_data[i];
        if value == model {
            if let Some(target) = from.ids.items.map(source) {
                if target == client_id as u32 && source <= 0x7fff_ffff {
                    return Some(source as i32);
                }
            }
        }
        i = i + 1;
    }
    None
}

/// A client's components under the server's ids; those that the server does not
/// have leave the stack.
pub open spec fn components_native(out: Seq<Component>, added: Seq<Component>, i: int, from: &Target) -> Seq<Component>
    decreases added.len() - i,
{
    if i < 0 || i >= added.len() {
        out
    } else {
        components_native(
            match component_id_native(added[i].id, from) {
                Some(id) => out.push(Component { id, data: added[i].data }),
                None => out,
            },
            added,
            i + 1,
            from,
        )
    }
}

pub open spec fn removed_native(out: Seq<i32>, removed: Seq<i32>, i: int, from: &Target) -> Seq<i32>
    decreases removed.len() - i,
{
    if i < 0 || i >= removed.len() {
        out
    } else {
        removed_native(
            match component_id_native(removed[i], from) {
                Some(id) => out.push(id),
                None => out,
            },
            removed,
            i + 1,
            from,
        )
    }
}

/// The item id of a client's stack, by its model where it is a stand-in.
pub open spec fn id_native(client_id: i32, mapped_id: i32, added: Seq<Component>, from: &Target) -> i32 {
    match item_behind(client_id, added, from) {
        Some(id) => id,
        None => mapped_id,
    }
}

/// A client's stack in the server's form. Component payloads are taken to be in
/// the server's layout already; NBT becomes components.
pub open spec fn stack_to_native(stack: Stack, from: &Target) -> Stack {
    match stack {
        Stack::Empty => Stack::Empty,
        Stack::Nbt { id, count, nbt } => match mapping::unmapped(from.ids.items@, id) {
            Some(mapped_id) => {
                let added = match nbt {
                    Some(tag) => match nbt::compound_of(tag) {
                        Some(c) => item_nbt::native_components(c, from.version, from.texts, from.cat),
                        None => seq![],
                    },
                    None => seq![],
                };
                Stack::Structured {
                    count: count as i32,
                    id: id_native(id, mapped_id, added, from),
                    added,
                    removed: seq![],
                }
            },
            None => Stack::Empty,
        },
        Stack::Structured { count, id, added, removed } => match mapping::unmapped(from.ids.items@, id) {
            Some(mapped_id) => {
                let native = components_native(seq![], added, 0, from);
                Stack::Structured {
                    count,
                    id: id_native(id, mapped_id, native, from),
                    added: native,
                    removed: removed_native(seq![], removed, 0, from),
                }
            },
            None => Stack::Empty,
        },
    }
}

#[verifier::loop_isolation(false)]
fn components_from_client(added: &Vec<ItemComponent>, from: &Target) -> (res: Vec<ItemComponent>)
    ensures
        types::component_views(res@) == components_native(seq![], types::component_views(added@), 0, from),
{
    let ghost views = types::component_views(added@);
    let mut out: Vec<ItemComponent> = Vec::new();
    let mut i: usize = 0;
    assert(types::component_views(out@) =~= seq![]);
    while i < added.len()
        invariant
            i <= added.len(),
            components_native(seq![], views, 0, from) == components_native(
                types::component_views(out@),
                views,
                i as int,
                from,
            ),
        decreases added.len() - i,
    {
        assert(views[i as int] == added@[i as int]@);
        if let Some(id) = map_component_id_from_client(added[i].id, from) {
            push_component(&mut out, id, added[i].data.clone());
        }
        i = i + 1;
    }
    out
}

#[verifier::loop_isolation(false)]
pub fn removed_from_client(removed: &Vec<i32>, from: &Target) -> (res: Vec<i32>)
    ensures
        res@ == removed_native(seq![], removed@, 0, from),
{
    let mut out: Vec<i32> = Vec::new();
    let mut i: usize = 0;
    while i < removed.len()
        invariant
            i <= removed.len(),
            removed_native(seq![], removed@, 0, from) == removed_native(out@, removed@, i as int, from),
        decreases removed.len() - i,
    {
        if let Some(id) = map_component_id_from_client(removed[i], from) {
            out.push(id);
        }
        i = i + 1;
    }
    out
}

impl StructuredItemRewriter {
    /// A client's stack in the server's form. Component payloads are taken to be
    /// in the server's layout already, which is how `read_client_item` hands them
    /// over.
    pub fn to_native(item: &Item, from: &Target) -> (res: Item)
        ensures
            res@ == stack_to_native(item@, from),
    {
        match item {
            Item::Empty => Item::Empty,
            Item::Nbt { id, count, nbt } => {
                let mapped_id: i32 = match from.ids.items.unmap_id(*id) {
                    Some(mapped_id) => mapped_id,
                    None => {
                        return Item::Empty;
                    },
                };
                let mut added: Vec<ItemComponent> = Vec::new();
                assert(types::component_views(added@) =~= seq![]);
                if let Some(tag) = nbt {
                    if let Some(c) = tag.extract_compound() {
                        added = item_nbt::nbt_to_components(&c, from.version, from.texts, from.cat);
                    }
                }
                let native_id: i32 = match restore_backported_item_id(*id, &added, from) {
                    Some(native_id) => native_id,
                    None => mapped_id,
                };
                let removed: Vec<i32> = Vec::new();
                assert(removed@ =~= seq![]);
                Item::Structured { count: *count as i32, id: native_id, added, removed }
            },
            Item::Structured { count, id, added, removed } => {
                let mapped_id: i32 = match from.ids.items.unmap_id(*id) {
                    Some(mapped_id) => mapped_id,
                    None => {
                        return Item::Empty;
                    },
                };
                let native: Vec<ItemComponent> = components_from_client(added, from);
                let native_id: i32 = match restore_backported_item_id(*id, &native, from) {
                    Some(native_id) => native_id,
                    None => mapped_id,
                };
                Item::Structured {
                    count: *count,
                    id: native_id,
                    added: native,
                    removed: removed_from_client(removed, from),
                }
            },
        }
    }
}

// --- client payloads without a counterpart -----------------------------------------------------------------

/// Whether a client's component is empty and has no counterpart: the two that
/// hide tooltips and the one against fire, where the release has them.
pub open spec fn is_empty_component(client_id: i32, version: Version) -> bool {
    if version <= version::V_1_21 {
        client_id == 14 || client_id == 15 || client_id == 21
    } else if version <= version::V_1_21_4 {
        client_id == 15 || client_id == 16
    } else {
        false
    }
}

pub fn client_component_is_empty(client_id: i32, version: Version) -> (res: bool)
    ensures
        res == is_empty_component(client_id, version),
{
    if version <= version::V_1_21 {
        client_id == 14 || client_id == 15 || client_id == 21
    } else if version <= version::V_1_21_4 {
        client_id == 15 || client_id == 16
    } else {
        false
    }
}

/// A trim material or pattern as 1.21.4 has it: a holder, or an entry that is
/// spelled out with an item id.
#[verifier::allow_in_spec]
pub fn inline_holder_shape() -> Shape
    returns
        (shape::case(
            0,
            shape::four(
                Shape::Str,
                Shape::VarInt,
                shape::repeat(shape::pair(Shape::Str, Shape::Str)),
                Shape::Nbt,
            ),
            Shape::Empty,
        )),
{
    shape::case(
        0,
        shape::four(
            Shape::Str,
            Shape::VarInt,
            shape::repeat(shape::pair(Shape::Str, Shape::Str)),
            Shape::Nbt,
        ),
        Shape::Empty,
    )
}

/// The layout in which a client of a release sends a component that can only be
/// read past; none for a component without such a layout.
pub open spec fn client_shape(component: DataComponent, version: Version) -> Option<Shape> {
    match component {
        DataComponent::Tool => Some(
            shape::three(
                shape::repeat(
                    shape::three(Shape::IdSet, shape::opt(Shape::Fixed(4)), shape::opt(Shape::Bool)),
                ),
                Shape::Fixed(4),
                Shape::VarInt,
            ),
        ),
        DataComponent::AttributeModifiers => Some(
            shape::pair(
                shape::repeat(
                    shape::four(
                        Shape::VarInt,
                        if version <= version::V_1_20_5 {
                            Shape::Fixed(16)
                        } else {
                            Shape::Empty
                        },
                        Shape::Str,
                        shape::three(Shape::Fixed(8), Shape::VarInt, Shape::VarInt),
                    ),
                ),
                if version <= version::V_1_21_4 {
                    Shape::Bool
                } else if version == version::V_1_21_11 {
                    shape::case(2, Shape::Nbt, Shape::Empty)
                } else {
                    Shape::Empty
                },
            ),
        ),
        DataComponent::Equippable => Some(item_component::equippable_shape(version)),
        DataComponent::Profile => Some(item_component::profile_shape()),
        DataComponent::JukeboxPlayable => Some(
            shape::pair(
                shape::either(
                    shape::case(0, item_component::inline_song_shape(), Shape::Empty),
                    Shape::Str,
                ),
                if version <= version::V_1_21_4 {
                    Shape::Bool
                } else {
                    Shape::Empty
                },
            ),
        ),
        DataComponent::Trim => Some(shape::three(inline_holder_shape(), inline_holder_shape(), Shape::Bool)),
        DataComponent::Instrument => {
            let holder = shape::case(0, item_component::inline_instrument_shape(), Shape::Empty);
            Some(
                if version > version::V_1_21_4 {
                    shape::either(holder, Shape::Str)
                } else {
                    holder
                },
            )
        },
        DataComponent::CanPlaceOn | DataComponent::CanBreak => Some(
            shape::pair(
                shape::repeat(
                    shape::three(
                        shape::opt(Shape::IdSet),
                        shape::opt(
                            shape::repeat(
                                shape::pair(
                                    Shape::Str,
                                    shape::either(Shape::Str, shape::pair(Shape::Str, Shape::Str)),
                                ),
                            ),
                        ),
                        Shape::Nbt,
                    ),
                ),
                Shape::Bool,
            ),
        ),
        DataComponent::IntangibleProjectile => Some(Shape::Nbt),
        DataComponent::CustomModelData => Some(Shape::VarInt),
        DataComponent::Food => Some(
            shape::four(
                Shape::VarInt,
                Shape::Fixed(4),
                Shape::Bool,
                shape::pair(
                    if version >= version::V_1_21 {
                        shape::pair(Shape::Fixed(4), Shape::Item)
                    } else {
                        Shape::Empty
                    },
                    shape::repeat(shape::three(Shape::VarInt, Shape::Effect, Shape::Fixed(4))),
                ),
            ),
        ),
        _ => None,
    }
}

fn new_client_shape(component: DataComponent, version: Version) -> (res: Option<Shape>)
    ensures
        res == client_shape(component, version),
{
    match component {
        DataComponent::Tool => Some(
            shape::three(
                shape::repeat(
                    shape::three(Shape::IdSet, shape::opt(Shape::Fixed(4)), shape::opt(Shape::Bool)),
                ),
                Shape::Fixed(4),
                Shape::VarInt,
            ),
        ),
        DataComponent::AttributeModifiers => {
            let uuid: Shape = if version <= version::V_1_20_5 {
                Shape::Fixed(16)
            } else {
                Shape::Empty
            };
            let end: Shape = if version <= version::V_1_21_4 {
                Shape::Bool
            } else if version == version::V_1_21_11 {
                shape::case(2, Shape::Nbt, Shape::Empty)
            } else {
                Shape::Empty
            };
            Some(
                shape::pair(
                    shape::repeat(
                        shape::four(
                            Shape::VarInt,
                            uuid,
                            Shape::Str,
                            shape::three(Shape::Fixed(8), Shape::VarInt, Shape::VarInt),
                        ),
                    ),
                    end,
                ),
            )
        },
        DataComponent::Equippable => {
            let flags: Shape = if version <= version::V_1_21_4 {
                shape::three(Shape::Bool, Shape::Bool, Shape::Bool)
            } else {
                shape::four(Shape::Bool, Shape::Bool, Shape::Bool, Shape::Bool)
            };
            Some(
                shape::four(
                    Shape::VarInt,
                    shape::sound(),
                    shape::three(shape::opt(Shape::Str), shape::opt(Shape::Str), shape::opt(Shape::IdSet)),
                    flags,
                ),
            )
        },
        DataComponent::Profile => Some(item_component::profile_shape()),
        DataComponent::JukeboxPlayable => {
            let end: Shape = if version <= version::V_1_21_4 {
                Shape::Bool
            } else {
                Shape::Empty
            };
            Some(
                shape::pair(
                    shape::either(
                        shape::case(0, item_component::inline_song_shape(), Shape::Empty),
                        Shape::Str,
                    ),
                    end,
                ),
            )
        },
        DataComponent::Trim => Some(shape::three(inline_holder_shape(), inline_holder_shape(), Shape::Bool)),
        DataComponent::Instrument => {
            let holder: Shape = shape::case(0, item_component::inline_instrument_shape(), Shape::Empty);
            Some(
                if version > version::V_1_21_4 {
                    shape::either(holder, Shape::Str)
                } else {
                    holder
                },
            )
        },
        DataComponent::CanPlaceOn | DataComponent::CanBreak => Some(
            shape::pair(
                shape::repeat(
                    shape::three(
                        shape::opt(Shape::IdSet),
                        shape::opt(
                            shape::repeat(
                                shape::pair(
                                    Shape::Str,
                                    shape::either(Shape::Str, shape::pair(Shape::Str, Shape::Str)),
                                ),
                            ),
                        ),
                        Shape::Nbt,
                    ),
                ),
                Shape::Bool,
            ),
        ),
        DataComponent::IntangibleProjectile => Some(Shape::Nbt),
        DataComponent::CustomModelData => Some(Shape::VarInt),
        DataComponent::Food => {
            let eating: Shape = if version >= version::V_1_21 {
                shape::pair(Shape::Fixed(4), Shape::Item)
            } else {
                Shape::Empty
            };
            Some(
                shape::four(
                    Shape::VarInt,
                    Shape::Fixed(4),
                    Shape::Bool,
                    shape::pair(
                        eating,
                        shape::repeat(shape::three(Shape::VarInt, Shape::Effect, Shape::Fixed(4))),
                    ),
                ),
            )
        },
        _ => None,
    }
}

/// What stands behind a client's payload that can only be read past.
pub open spec fn client_payload_skipped(
    component: DataComponent,
    s: Seq<u8>,
    version: Version,
    cat: &Catalog,
) -> Option<Seq<u8>> {
    match client_shape(component, version) {
        Some(shape) => shape::drop_shape(shape, s, cat, version),
        None => None,
    }
}

/// Moves past a client's payload for which there is nothing to rebuild.
pub fn skip_client_payload(component: DataComponent, r: &mut &[u8], version: Version, cat: &Catalog) -> (res: Result<
    (),
    ReadingError,
>)
    ensures
        match client_payload_skipped(component, old(r)@, version, cat) {
            Some(rest) => res is Ok && final(r)@ == rest,
            None => res is Err,
        },
{
    match new_client_shape(component, version) {
        Some(shape) => shape::skip(&shape, r, cat, version),
        None => Err(ReadingError::Malformed),
    }
}

// --- laws ------------------------------------------------------------------------------------------------

proof fn lemma_id_from(components: Seq<DataComponent>, component: DataComponent, i: int)
    requires
        0 <= i,
    ensures
        catalog::id_from(components, component, i) >= 0 ==> catalog::id_from(components, component, i)
            < components.len() && components[catalog::id_from(components, component, i) as int] == component,
    decreases components.len() - i,
{
    if i < components.len() && i <= 255 && components[i] != component {
        lemma_id_from(components, component, i + 1);
    }
}

/// Only the model's own id of a client stands for the server's model.
proof fn lemma_model_id(id: i32, mapped: i32, to: &Target)
    requires
        own_component_mapped(DataComponent::CustomModelData, to) == Some(mapped),
        component_id_native(id, to) == Some(catalog::id_of(to.cat, DataComponent::CustomModelData)),
        catalog::id_of(to.cat, DataComponent::CustomModelData) >= 0,
    ensures
        id == mapped,
{
    lemma_id_from(to.cat.components@, DataComponent::CustomModelData, 0);
    lemma_id_from(to.cat.components@, DataComponent::AttackAnimation, 0);
    if id >= 0 {
        mapping::unmap_is_a_preimage(to.ids.data_component_type@, id as u32);
    }
}

proof fn lemma_model_comes_back(out: Seq<Component>, added: Seq<Component>, i: int, mapped: i32, to: &Target)
    requires
        0 <= i <= added.len(),
        own_component_mapped(DataComponent::CustomModelData, to) == Some(mapped),
        component_id_native(mapped, to) == Some(catalog::id_of(to.cat, DataComponent::CustomModelData)),
        catalog::id_of(to.cat, DataComponent::CustomModelData) >= 0,
        item_nbt::data_of(out, DataComponent::CustomModelData, to.cat) is None,
    ensures
        item_nbt::data_of(components_native(out, added, i, to), DataComponent::CustomModelData, to.cat)
            == item_nbt::data_from(added, mapped, i),
    decreases added.len() - i,
{
    let own = catalog::id_of(to.cat, DataComponent::CustomModelData);
    if i < added.len() {
        match component_id_native(added[i].id, to) {
            Some(id) => {
                let next = out.push(Component { id, data: added[i].data });
                lemma_data_pushed(out, Component { id, data: added[i].data }, own, 0);
                if id == own {
                    lemma_model_id(added[i].id, mapped, to);
                    lemma_data_is_kept(next, added, i + 1, own, to);
                } else {
                    lemma_model_comes_back(next, added, i + 1, mapped, to);
                }
            },
            None => {
                lemma_model_comes_back(out, added, i + 1, mapped, to);
            },
        }
    }
}

/// A component at the end is found where none before it is.
proof fn lemma_data_pushed(out: Seq<Component>, last: Component, id: i32, i: int)
    requires
        0 <= i <= out.len(),
    ensures
        item_nbt::data_from(out.push(last), id, i) == match item_nbt::data_from(out, id, i) {
            Some(data) => Some(data),
            None => if last.id == id {
                Some(last.data)
            } else {
                None
            },
        },
    decreases out.len() - i,
{
    let all = out.push(last);
    if i < out.len() {
        assert(all[i] == out[i]);
        lemma_data_pushed(out, last, id, i + 1);
    } else {
        assert(all[i] == last);
        assert(item_nbt::data_from(all, id, i + 1) is None);
    }
}

/// What has been found stays, whatever comes behind it.
proof fn lemma_data_is_kept(out: Seq<Component>, added: Seq<Component>, i: int, id: i32, to: &Target)
    requires
        0 <= i <= added.len(),
        item_nbt::data_from(out, id, 0) is Some,
    ensures
        item_nbt::data_from(components_native(out, added, i, to), id, 0) == item_nbt::data_from(out, id, 0),
    decreases added.len() - i,
{
    if i < added.len() {
        match component_id_native(added[i].id, to) {
            Some(native) => {
                let last = Component { id: native, data: added[i].data };
                lemma_data_pushed(out, last, id, 0);
                lemma_data_is_kept(out.push(last), added, i + 1, id, to);
            },
            None => {
                lemma_data_is_kept(out, added, i + 1, id, to);
            },
        }
    }
}

proof fn lemma_item_with_model(models: Seq<(u32, i32)>, i: int, k: int, client_id: u32, slots: Seq<Option<u32>>)
    requires
        0 <= i <= k < models.len(),
        models[k].0 <= i32::MAX,
        mapping::target_of(slots, models[k].0) == Some(client_id),
        forall|j: int|
            0 <= j < models.len() && (#[trigger] models[j]).1 == models[k].1 && mapping::target_of(slots, models[j].0)
                == Some(client_id) ==> models[j].0 == models[k].0,
    ensures
        item_with_model(models, i, models[k].1, client_id, slots) == Some(models[k].0 as i32),
    decreases k - i,
{
    if i < k {
        lemma_item_with_model(models, i + 1, k, client_id, slots);
    }
}

proof fn lemma_shown(stack: Stack, to: &Target)
    requires
        stack is Structured,
        to.version >= types::FIRST_STRUCTURED,
        mapping::mapped(to.ids.items@, stack->Structured_id) is Some,
    ensures
        stack_to_version(stack, to) is Structured,
        stack_to_version(stack, to)->Structured_id == mapping::mapped(to.ids.items@, stack->Structured_id).unwrap(),
        stack_to_version(stack, to)->Structured_count == stack->Structured_count,
{
}

/// The item of a stack that is marked by a model.
proof fn lemma_marked_item(count: i32, added: Seq<Component>, removed: Seq<i32>, row: int, to: &Target)
    requires
        0 <= row < to.ids.custom_model_data.len(),
        to.ids.custom_model_data@[row].0 <= i32::MAX,
        -0x100_0000 <= to.ids.custom_model_data@[row].1 <= 0x100_0000,
        mapping::mapped(to.ids.items@, to.ids.custom_model_data@[row].0 as i32) is Some,
        is_told_apart(row, to),
        item_nbt::data_of(components_native(seq![], added, 0, to), DataComponent::CustomModelData, to.cat) == Some(
            item_component::enc_model(to.ids.custom_model_data@[row].1),
        ),
    ensures
        stack_to_native(
            (Stack::Structured {
                count,
                id: mapping::mapped(to.ids.items@, to.ids.custom_model_data@[row].0 as i32).unwrap(),
                added,
                removed,
            }),
            to,
        ) matches Stack::Structured { id, count: back, .. } && id == to.ids.custom_model_data@[row].0 && back == count,
{
    let source = to.ids.custom_model_data@[row].0;
    let client_id = mapping::mapped(to.ids.items@, source as i32).unwrap();
    item_component::model_values_come_back(to.ids.custom_model_data@[row].1);
    mapping::mapped_ids_come_back(to.ids.items@, source);
    lemma_item_with_model(to.ids.custom_model_data@, 0, row, client_id as u32, to.ids.items@);
}

/// Whether no other item is shown under the same id and the same model.
pub open spec fn is_told_apart(row: int, to: &Target) -> bool {
    forall|j: int|
        0 <= j < to.ids.custom_model_data.len() && (#[trigger] to.ids.custom_model_data@[j]).1
            == to.ids.custom_model_data@[row].1 && mapping::target_of(to.ids.items@, to.ids.custom_model_data@[j].0)
            == mapping::target_of(to.ids.items@, to.ids.custom_model_data@[row].0) ==> to.ids.custom_model_data@[j].0
            == to.ids.custom_model_data@[row].0
}

/// Whether nothing of a stack becomes the client's component of an id, and no tooltip
/// line or old food does.
pub open spec fn is_unmarked(added: Seq<Component>, mapped: i32, to: &Target) -> bool {
    &&& own_component_mapped(DataComponent::Food, to) != Some(mapped)
    &&& own_component_mapped(DataComponent::Lore, to) != Some(mapped)
    &&& forall|i: int|
        0 <= i < added.len() ==> match catalog::component_of(to.cat, (#[trigger] added[i]).id) {
            Some(component) => component_id_mapped(added[i].id, component, to) != Some(mapped),
            None => true,
        }
}

/// Whether a stack is shown as the stand-in of a row: its item is the row's, the row
/// is the item's first, and the client has an id for the stand-in.
pub open spec fn is_stood_in(stack: Stack, row: int, to: &Target) -> bool {
    &&& stack is Structured
    &&& 0 <= row < to.ids.custom_model_data.len()
    &&& to.ids.custom_model_data@[row].0 == stack->Structured_id
    &&& mapping::model_of(to.ids.custom_model_data@, stack->Structured_id) == Some(to.ids.custom_model_data@[row].1)
    &&& -0x100_0000 <= to.ids.custom_model_data@[row].1 <= 0x100_0000
    &&& mapping::mapped(to.ids.items@, stack->Structured_id) is Some
    &&& is_told_apart(row, to)
}

/// Whether the client has a component of its own for models, which no part of the
/// stack takes.
pub open spec fn has_room_for_model(stack: Stack, to: &Target) -> bool {
    &&& catalog::id_of(to.cat, DataComponent::CustomModelData) >= 0
    &&& own_component_mapped(DataComponent::CustomModelData, to) matches Some(mapped) && component_id_native(mapped, to)
        == Some(catalog::id_of(to.cat, DataComponent::CustomModelData)) && is_unmarked(
        stack->Structured_added,
        mapped,
        to,
    )
}

proof fn lemma_no_position(out: Seq<Component>, id: i32, i: int)
    requires
        0 <= i,
        forall|k: int| i <= k < out.len() ==> (#[trigger] out[k]).id != id,
    ensures
        component_position(out, id, i) is None,
    decreases out.len() - i,
{
    if i < out.len() {
        assert(out[i].id != id);
        lemma_no_position(out, id, i + 1);
    }
}

proof fn lemma_position_index(out: Seq<Component>, id: i32, i: int)
    requires
        0 <= i,
    ensures
        component_position(out, id, i) matches Some(k) ==> 0 <= k < out.len(),
    decreases out.len() - i,
{
    if i < out.len() {
        lemma_position_index(out, id, i + 1);
    }
}

/// Whether no component of a stack has an id.
pub open spec fn has_none(out: Seq<Component>, id: i32) -> bool {
    forall|k: int| 0 <= k < out.len() ==> (#[trigger] out[k]).id != id
}

proof fn lemma_component_beside(out: Seq<Component>, id: i32, data: Seq<u8>, other: i32)
    requires
        has_none(out, other),
        id != other,
    ensures
        has_none(with_component(out, id, data), other),
{
    lemma_position_index(out, id, 0);
}

#[verifier::spinoff_prover]
proof fn lemma_step_unmarked(out: Seq<Component>, added: Seq<Component>, i: int, mapped: i32, to: &Target)
    requires
        0 <= i < added.len(),
        is_unmarked(added, mapped, to),
        has_none(out, mapped),
    ensures
        has_none(component_converted(out, added, i, to), mapped),
{
    if let Some(component) = catalog::component_of(to.cat, added[i].id) {
        if let Some(id) = component_id_mapped(added[i].id, component, to) {
            assert forall|data: Seq<u8>| has_none(#[trigger] with_component(out, id, data), mapped) by {
                lemma_component_beside(out, id, data, mapped);
            }
        }
    }
}

#[verifier::spinoff_prover]
proof fn lemma_converted_unmarked(out: Seq<Component>, added: Seq<Component>, i: int, mapped: i32, to: &Target)
    requires
        0 <= i <= added.len(),
        is_unmarked(added, mapped, to),
        has_none(out, mapped),
    ensures
        has_none(components_converted(out, added, i, to), mapped),
    decreases added.len() - i,
{
    if i < added.len() {
        lemma_step_unmarked(out, added, i, mapped, to);
        lemma_converted_unmarked(component_converted(out, added, i, to), added, i + 1, mapped, to);
    }
}

/// The model of a stand-in stands behind all other components that the client gets.
pub proof fn lemma_model_is_last(stack: Stack, row: int, to: &Target)
    requires
        is_stood_in(stack, row, to),
        has_room_for_model(stack, to),
        to.version >= types::FIRST_STRUCTURED,
    ensures
        stack_to_version(stack, to)->Structured_added.len() > 0,
        Some(stack_to_version(stack, to)->Structured_added.last().id) == own_component_mapped(
            DataComponent::CustomModelData,
            to,
        ),
        Some(stack_to_version(stack, to)->Structured_added.last().data) == model_payload_mapped(
            to.ids.custom_model_data@[row].1,
            to,
        ),
        forall|k: int|
            0 <= k < stack_to_version(stack, to)->Structured_added.len() - 1 ==> (#[trigger] stack_to_version(
                stack,
                to,
            )->Structured_added[k]).id != stack_to_version(stack, to)->Structured_added.last().id,
{
    let added = stack->Structured_added;
    let mapped = own_component_mapped(DataComponent::CustomModelData, to).unwrap();
    let value = to.ids.custom_model_data@[row].1;
    let converted = components_converted(seq![], added, 0, to);
    let fed = with_food(converted, legacy_food(added, to), to);
    let lines = missing_enchantments(seq![], added, 0, to);
    let lined = with_lines(fed, lines, to);
    lemma_converted_unmarked(seq![], added, 0, mapped, to);
    assert forall|k: int| 0 <= k < fed.len() implies (#[trigger] fed[k]).id != mapped by {
        if k < converted.len() {
            assert(converted[k].id != mapped);
        }
    }
    if let Some(id) = own_component_mapped(DataComponent::Lore, to) {
        lemma_position_index(fed, id, 0);
    }
    assert forall|k: int| 0 <= k < lined.len() implies (#[trigger] lined[k]).id != mapped by {
        if k < fed.len() {
            assert(fed[k].id != mapped);
        }
    }
    lemma_no_position(lined, mapped, 0);
    item_component::model_values_come_back(value);
    let data = model_payload_mapped(value, to).unwrap();
    let shown = stack_to_version(stack, to);
    assert(shown->Structured_added == lined.push(Component { id: mapped, data }));
}

/// A last component that no other shares an id with is found.
proof fn lemma_last_is_found(added: Seq<Component>, i: int)
    requires
        0 <= i < added.len(),
        forall|k: int| 0 <= k < added.len() - 1 ==> (#[trigger] added[k]).id != added.last().id,
    ensures
        item_nbt::data_from(added, added.last().id, i) == Some(added.last().data),
    decreases added.len() - i,
{
    if i < added.len() - 1 {
        assert(added[i].id != added.last().id);
        lemma_last_is_found(added, i + 1);
    }
}

/// A stack whose last component is the model of a row, and whose other components are
/// no models, is the row's item to the server.
pub proof fn lemma_last_model_leads_back(count: i32, added: Seq<Component>, removed: Seq<i32>, row: int, to: &Target)
    requires
        0 <= row < to.ids.custom_model_data.len(),
        to.ids.custom_model_data@[row].0 <= i32::MAX,
        -0x100_0000 <= to.ids.custom_model_data@[row].1 <= 0x100_0000,
        mapping::mapped(to.ids.items@, to.ids.custom_model_data@[row].0 as i32) is Some,
        is_told_apart(row, to),
        catalog::id_of(to.cat, DataComponent::CustomModelData) >= 0,
        added.len() > 0,
        own_component_mapped(DataComponent::CustomModelData, to) == Some(added.last().id),
        component_id_native(added.last().id, to) == Some(catalog::id_of(to.cat, DataComponent::CustomModelData)),
        added.last().data == item_component::enc_model(to.ids.custom_model_data@[row].1),
        forall|k: int| 0 <= k < added.len() - 1 ==> (#[trigger] added[k]).id != added.last().id,
    ensures
        stack_to_native(
            (Stack::Structured {
                count,
                id: mapping::mapped(to.ids.items@, to.ids.custom_model_data@[row].0 as i32).unwrap(),
                added,
                removed,
            }),
            to,
        ) matches Stack::Structured { id, count: back, .. } && id == to.ids.custom_model_data@[row].0 && back == count,
{
    lemma_last_is_found(added, 0);
    lemma_model_comes_back(seq![], added, 0, added.last().id, to);
    lemma_marked_item(count, added, removed, row, to);
}

/// An item that a client from 1.21.4 on is shown another one for comes back as itself:
/// the model that marks the stand-in leads back to it. `row` is the item's row in the
/// table of such items; the model has to be a number that a float can hold.
pub proof fn stand_ins_lead_back(stack: Stack, row: int, to: &Target)
    requires
        is_stood_in(stack, row, to),
        has_room_for_model(stack, to),
        to.version >= version::V_1_21_4,
    ensures
        stack_to_native(stack_to_version(stack, to), to) matches Stack::Structured { id, count, .. } && id
            == stack->Structured_id && count == stack->Structured_count,
{
    lemma_shown(stack, to);
    lemma_model_is_last(stack, row, to);
    let shown = stack_to_version(stack, to);
    lemma_last_model_leads_back(
        shown->Structured_count,
        shown->Structured_added,
        shown->Structured_removed,
        row,
        to,
    );
}

/// As `lemma_last_model_leads_back`, of a stack of the NBT releases.
pub proof fn lemma_tagged_model_leads_back(count: i8, c: Seq<nbt::Entry>, row: int, to: &Target)
    requires
        0 <= row < to.ids.custom_model_data.len(),
        to.ids.custom_model_data@[row].0 <= i32::MAX,
        -0x100_0000 <= to.ids.custom_model_data@[row].1 <= 0x100_0000,
        mapping::mapped(to.ids.items@, to.ids.custom_model_data@[row].0 as i32) is Some,
        is_told_apart(row, to),
        nbt::is_compound(c),
        item_nbt::data_of(
            item_nbt::native_components(c, to.version, to.texts, to.cat),
            DataComponent::CustomModelData,
            to.cat,
        ) == Some(item_component::enc_model(to.ids.custom_model_data@[row].1)),
    ensures
        stack_to_native(
            (Stack::Nbt {
                id: mapping::mapped(to.ids.items@, to.ids.custom_model_data@[row].0 as i32).unwrap(),
                count,
                nbt: Some(nbt::compound_tag(c)),
            }),
            to,
        ) matches Stack::Structured { id, count: back, .. } && id == to.ids.custom_model_data@[row].0 && back == count,
{
    let source = to.ids.custom_model_data@[row].0;
    let client_id = mapping::mapped(to.ids.items@, source as i32).unwrap();
    nbt::compounds_read_back(c);
    item_component::model_values_come_back(to.ids.custom_model_data@[row].1);
    mapping::mapped_ids_come_back(to.ids.items@, source);
    lemma_item_with_model(to.ids.custom_model_data@, 0, row, client_id as u32, to.ids.items@);
}

} // verus!
