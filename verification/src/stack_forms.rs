//! What stacks and sounds are on the wire, field by field.
use vstd::prelude::*;
use crate::catalog::Catalog;
use crate::catalog::DataComponent;
use crate::item;
use crate::item_nbt;
use crate::item_round_trip;
use crate::item_tags;
use crate::item_tags::alone;
use crate::item_tags::tagged;
use crate::mapping;
use crate::nbt;
use crate::nbt::Tag;
use crate::shape;
use crate::sound;
use crate::target::Target;
use crate::types;
use crate::types::Component;
use crate::types::Stack;
use crate::version;
use crate::version::Version;
use crate::wire;

verus! {

// --- stacks ------------------------------------------------------------------------------------------------

/// Before 1.20.5 a stack is a one, its item, its count in a byte and its NBT, and reads back;
/// an empty one is a zero.
pub proof fn tagged_stacks_read_back(id: i32, count: i8, tag: Tag, version: Version, rest: Seq<u8>)
    requires
        version < version::V_1_20_5,
        nbt::is_whole(tag),
    ensures
        ({
            let stack = Stack::Nbt { id, count, nbt: Some(tag) };
            &&& types::enc_item(stack, version, false) matches Some(bytes) && bytes == seq![1u8] + wire::enc_var_int(id)
                + seq![types::i8_byte(count)] + nbt::enc_nbt(Some(tag), version::nbt_is_named(version))
                && types::take_nbt_stack(bytes + rest, version) == Some((stack, rest))
            &&& types::enc_item(Stack::Empty, version, false) == Some(seq![0u8])
            &&& types::take_nbt_stack(seq![0u8] + rest, version) == Some((Stack::Empty, rest))
        }),
{
    let named = version::nbt_is_named(version);
    let body = nbt::enc_nbt(Some(tag), named);
    let byte = seq![types::i8_byte(count)];
    wire::four_pieces(seq![1u8], wire::enc_var_int(id), byte, body, rest);
    let s2 = byte + (body + rest);
    let s1 = wire::enc_var_int(id) + s2;
    assert((seq![1u8] + s1).skip(1) =~= s1);
    wire::var_int_round_trip(id, s2);
    assert(s2.skip(1) =~= body + rest);
    assert(nbt::i8_of(types::i8_byte(count)) == count);
    nbt::tags_read_back(tag, named, rest);
    assert((seq![0u8] + rest).skip(1) =~= rest);
}

/// An item goes to a client before 1.20.5 under the client's own number, with as much of its
/// count as a byte holds; one that the client lacks becomes nothing.
pub proof fn items_are_renumbered(count: i32, id: i32, to: &Target)
    requires
        to.version < version::V_1_20_5,
        mapping::model_of(to.ids.custom_model_data@, id) is None,
    ensures
        ({
            let stack = Stack::Structured { count, id, added: seq![], removed: seq![] };
            match mapping::mapped(to.ids.items@, id) {
                Some(shown) => item::stack_to_version(stack, to) == (Stack::Nbt {
                    id: shown,
                    count: if -128 <= count <= 127 {
                        count as i8
                    } else {
                        127i8
                    },
                    nbt: None,
                }),
                None => item::stack_to_version(stack, to) == Stack::Empty,
            }
        }),
{
    item_round_trip::no_components_have_no_nbt(to);
}

/// From 1.20.5 on a stack is its count, its item, how many components it has more and how many
/// fewer, and those; each component is its number and its payload.
pub proof fn structured_stacks_are_spelled(count: i32, id: i32, component: i32, data: Seq<u8>, removed: i32, version: Version)
    requires
        version >= version::V_1_20_5,
    ensures
        types::enc_item(
            Stack::Structured { count, id, added: seq![], removed: seq![] },
            version,
            false,
        ) == Some(wire::enc_var_int(count) + wire::enc_var_int(id) + seq![0u8, 0u8]),
        types::enc_item(
            Stack::Structured { count, id, added: alone(component, data), removed: seq![removed] },
            version,
            false,
        ) == Some(
            wire::enc_var_int(count) + wire::enc_var_int(id) + (seq![1u8, 1u8] + (wire::enc_var_int(component) + data)
                + wire::enc_var_int(removed)),
        ),
{
    lemma_no_patch();
    lemma_small_patch(component, data, removed);
}

proof fn lemma_no_patch()
    ensures
        types::enc_patch(seq![], seq![], false) == seq![0u8, 0u8],
{
    assert(wire::enc_len(0) =~= seq![0u8]);
    assert(types::enc_patch(seq![], seq![], false) =~= seq![0u8, 0u8]);
}

proof fn lemma_small_patch(component: i32, data: Seq<u8>, removed: i32)
    ensures
        types::enc_patch(alone(component, data), seq![removed], false) == seq![1u8, 1u8] + (wire::enc_var_int(component)
            + data) + wire::enc_var_int(removed),
{
    reveal(alone);
    let one = Component { id: component, data };
    let number = wire::enc_var_int(component);
    let gone = wire::enc_var_int(removed);
    assert(wire::enc_len(1) =~= seq![1u8]);
    assert(seq![one].drop_last() =~= seq![]);
    assert(seq![removed].drop_last() =~= seq![]);
    assert(types::enc_components(seq![], false) == Seq::<u8>::empty());
    assert(types::enc_ids(seq![]) == Seq::<u8>::empty());
    wire::no_piece(number);
    wire::no_piece(number + data);
    wire::no_piece(gone);
    assert(types::enc_component(one, false) == number + data);
    assert(types::enc_components(seq![one], false) == number + data);
    assert(types::enc_ids(seq![removed]) == gone);
    assert(seq![1u8] + seq![1u8] =~= seq![1u8, 1u8]);
}

/// A stack that cannot be empty has its item before its count.
pub proof fn templates_have_their_item_first(id: i32, count: i32, rest: Seq<u8>, cat: &Catalog)
    ensures
        types::take_template(wire::enc_var_int(id) + wire::enc_var_int(count) + seq![0u8, 0u8] + rest, cat) == Some(
            (Stack::Structured { count, id, added: seq![], removed: seq![] }, rest),
        ),
        types::enc_template(Stack::Structured { count, id, added: seq![], removed: seq![] }) == Some(
            wire::enc_var_int(id) + wire::enc_var_int(count) + seq![0u8, 0u8],
        ),
{
    lemma_no_patch();
    let a = wire::enc_var_int(id);
    let b = wire::enc_var_int(count);
    let zeros = seq![0u8, 0u8];
    wire::three_pieces(a, b, zeros, rest);
    wire::var_int_round_trip(id, b + (zeros + rest));
    wire::var_int_round_trip(count, zeros + rest);
    assert(wire::enc_var_int(0) =~= seq![0u8]);
    assert(zeros + rest =~= seq![0u8] + (seq![0u8] + rest));
    wire::var_int_round_trip(0, seq![0u8] + rest);
    wire::var_int_round_trip(0, rest);
}

// --- stacks in stacks -------------------------------------------------------------------------------------

/// A stack without components, as the server writes it inside of another.
pub open spec fn inner_bytes(id: i32, count: i32) -> Seq<u8> {
    wire::enc_var_int(id) + wire::enc_var_int(count) + seq![0u8, 0u8]
}

proof fn lemma_inner(id: i32, count: i32, slot: Option<u8>, name: Seq<u8>, to: &Target)
    requires
        mapping::mapped(to.ids.items@, id) matches Some(target) && item_nbt::item_name(to.cat, target, to.version)
            == Some(name),
        0 <= count <= 127,
    ensures
        item_nbt::stack_tag(
            Stack::Structured { count, id, added: seq![], removed: seq![] },
            slot,
            to,
        ) == Some(
            nbt::compound_tag(
                match slot {
                    Some(slot) => seq![
                        tagged(wire::key("id"), nbt::string_tag(name)),
                        tagged(wire::key("Count"), nbt::byte_tag(count as u8)),
                        tagged(wire::key("Slot"), nbt::byte_tag(slot)),
                    ],
                    None => seq![
                        tagged(wire::key("id"), nbt::string_tag(name)),
                        tagged(wire::key("Count"), nbt::byte_tag(count as u8)),
                    ],
                },
            ),
        ),
{
    item_round_trip::no_components_have_no_nbt(to);
    lemma_inner_names();
    let a = tagged(wire::key("id"), nbt::string_tag(name));
    let b = tagged(wire::key("Count"), nbt::byte_tag(count as u8));
    item_tags::lemma_put_one(a);
    item_tags::lemma_put_two(a, b);
    if let Some(slot) = slot {
        item_tags::lemma_put_three(a, b, tagged(wire::key("Slot"), nbt::byte_tag(slot)));
    }
}

proof fn lemma_inner_names()
    ensures
        wire::key("id") != wire::key("Count"),
        wire::key("id") != wire::key("Slot"),
        wire::key("Count") != wire::key("Slot"),
{
    reveal_strlit("id");
    reveal_strlit("Count");
    reveal_strlit("Slot");
    vstd::utf8::is_ascii_chars_encode_utf8("id"@);
    vstd::utf8::is_ascii_chars_encode_utf8("Count"@);
    vstd::utf8::is_ascii_chars_encode_utf8("Slot"@);
    assert(wire::key("id").len() == 2 && wire::key("Count").len() == 5 && wire::key("Slot").len() == 4);
}

/// Empty places, then a stack.
pub open spec fn places_before(empty: nat, stack: Seq<u8>) -> Seq<u8>
    decreases empty,
{
    if empty == 0 {
        seq![1u8] + stack
    } else {
        seq![0u8] + places_before((empty - 1) as nat, stack)
    }
}

proof fn lemma_places(index: int, empty: nat, id: i32, count: i32, name: Seq<u8>, to: &Target)
    requires
        0 <= index,
        index + empty <= 127,
        mapping::mapped(to.ids.items@, id) matches Some(target) && item_nbt::item_name(to.cat, target, to.version)
            == Some(name),
        0 <= count <= 127,
    ensures
        item_nbt::take_stack_tags(
            seq![],
            index,
            empty + 1,
            places_before(empty, inner_bytes(id, count)),
            true,
            to,
        ) == Some(
            (
                seq![
                    nbt::compound_tag(
                        seq![
                            tagged(wire::key("id"), nbt::string_tag(name)),
                            tagged(wire::key("Count"), nbt::byte_tag(count as u8)),
                            tagged(wire::key("Slot"), nbt::byte_tag((index + empty) as u8)),
                        ],
                    ),
                ],
                Seq::<u8>::empty(),
            ),
        ),
    decreases empty,
{
    let s = places_before(empty, inner_bytes(id, count));
    if empty == 0 {
        let none = Seq::<u8>::empty();
        assert(s.skip(1) =~= inner_bytes(id, count));
        assert(s[0] == 1);
        templates_have_their_item_first(id, count, none, to.cat);
        wire::no_piece(inner_bytes(id, count));
        lemma_inner(id, count, Some(index as u8), name, to);
        let stack = Stack::Structured { count, id, added: seq![], removed: seq![] };
        let tag = item_nbt::stack_tag(stack, Some(index as u8), to).unwrap();
        assert(Seq::<Tag>::empty().push(tag) =~= seq![tag]);
        assert(item_nbt::take_stack_tags(seq![tag], index + 1, 0, none, true, to) == Some((seq![tag], none)));
    } else {
        let tail = places_before((empty - 1) as nat, inner_bytes(id, count));
        assert(s.skip(1) =~= tail);
        assert(s[0] == 0);
        lemma_places(index + 1, (empty - 1) as nat, id, count, name, to);
    }
}

proof fn lemma_contained(empty: nat, id: i32, count: i32, name: Seq<u8>, to: &Target)
    requires
        empty <= 127,
        mapping::mapped(to.ids.items@, id) matches Some(target) && item_nbt::item_name(to.cat, target, to.version)
            == Some(name),
        0 <= count <= 127,
    ensures
        item_nbt::stack_tags(
            wire::enc_var_int((empty + 1) as i32) + places_before(empty, inner_bytes(id, count)),
            true,
            to,
        ) == Some(
            seq![
                nbt::compound_tag(
                    seq![
                        tagged(wire::key("id"), nbt::string_tag(name)),
                        tagged(wire::key("Count"), nbt::byte_tag(count as u8)),
                        tagged(wire::key("Slot"), nbt::byte_tag(empty as u8)),
                    ],
                ),
            ],
        ),
{
    let places = places_before(empty, inner_bytes(id, count));
    wire::var_int_round_trip((empty + 1) as i32, places);
    lemma_places(0, empty, id, count, name, to);
}

proof fn lemma_listed(id: i32, count: i32, name: Seq<u8>, to: &Target)
    requires
        mapping::mapped(to.ids.items@, id) matches Some(target) && item_nbt::item_name(to.cat, target, to.version)
            == Some(name),
        0 <= count <= 127,
    ensures
        item_nbt::stack_tags(seq![1u8] + inner_bytes(id, count), false, to) == Some(
            seq![
                nbt::compound_tag(
                    seq![
                        tagged(wire::key("id"), nbt::string_tag(name)),
                        tagged(wire::key("Count"), nbt::byte_tag(count as u8)),
                    ],
                ),
            ],
        ),
{
    let s = inner_bytes(id, count);
    let none = Seq::<u8>::empty();
    assert(wire::enc_var_int(1) =~= seq![1u8]);
    wire::var_int_round_trip(1, s);
    templates_have_their_item_first(id, count, none, to.cat);
    wire::no_piece(s);
    lemma_inner(id, count, None, name, to);
    let stack = Stack::Structured { count, id, added: seq![], removed: seq![] };
    let tag = item_nbt::stack_tag(stack, None, to).unwrap();
    assert(Seq::<Tag>::empty().push(tag) =~= seq![tag]);
    assert(item_nbt::take_stack_tags(seq![tag], 1, 0, none, false, to) == Some((seq![tag], none)));
    assert(item_nbt::take_stack_tags(seq![], 0, 1, s, false, to) == Some((seq![tag], none)));
}

/// A stack in a container is shown among the items of its block entity by its name and its
/// count, in the place that it has behind the empty ones.
pub proof fn contained_stacks_keep_their_place(
    component: i32,
    empty: nat,
    id: i32,
    count: i32,
    name: Seq<u8>,
    to: &Target,
)
    requires
        item_tags::stands_for(component, DataComponent::Container, to),
        empty <= 127,
        mapping::mapped(to.ids.items@, id) matches Some(target) && item_nbt::item_name(to.cat, target, to.version)
            == Some(name),
        0 <= count <= 127,
    ensures
        item_nbt::nbt_form(
            alone(
                component,
                wire::enc_var_int((empty + 1) as i32) + places_before(empty, inner_bytes(id, count)),
            ),
            to,
        ) == Some(
            seq![
                tagged(
                    wire::key("BlockEntityTag"),
                    nbt::compound_tag(
                        seq![
                            tagged(
                                wire::key("Items"),
                                nbt::list_tag(
                                    seq![
                                        nbt::compound_tag(
                                            seq![
                                                tagged(wire::key("id"), nbt::string_tag(name)),
                                                tagged(wire::key("Count"), nbt::byte_tag(count as u8)),
                                                tagged(wire::key("Slot"), nbt::byte_tag(empty as u8)),
                                            ],
                                        ),
                                    ],
                                ),
                            ),
                        ],
                    ),
                ),
            ],
        ),
{
    let data = wire::enc_var_int((empty + 1) as i32) + places_before(empty, inner_bytes(id, count));
    lemma_contained(empty, id, count, name, to);
    lemma_container(component, data, item_nbt::stack_tags(data, true, to).unwrap(), to);
}

proof fn lemma_container(component: i32, data: Seq<u8>, tags: Seq<Tag>, to: &Target)
    requires
        item_tags::stands_for(component, DataComponent::Container, to),
        item_nbt::stack_tags(data, true, to) == Some(tags),
    ensures
        item_nbt::nbt_form(alone(component, data), to) == Some(
            seq![
                tagged(
                    wire::key("BlockEntityTag"),
                    nbt::compound_tag(seq![tagged(wire::key("Items"), nbt::list_tag(tags))]),
                ),
            ],
        ),
{
    let items = tagged(wire::key("Items"), nbt::list_tag(tags));
    let entry = tagged(wire::key("BlockEntityTag"), nbt::compound_tag(seq![items]));
    item_tags::lemma_put_one(items);
    item_tags::lemma_put_one(entry);
    item_tags::lemma_push(seq![], wire::key("BlockEntityTag"), nbt::bool_tag(true));
    assert(item_nbt::drafted(item_tags::blank(), alone(component, data), 0, to) == item_nbt::rooted(
        item_tags::blank(),
        seq![entry],
    )) by {
        reveal(alone);
    }
    item_tags::lemma_rooted(DataComponent::Container, component, data, to, seq![entry]);
}

/// A stack in a bundle is shown among its items by its name and its count.
pub proof fn bundled_stacks_are_shown(component: i32, id: i32, count: i32, name: Seq<u8>, to: &Target)
    requires
        item_tags::stands_for(component, DataComponent::BundleContents, to),
        mapping::mapped(to.ids.items@, id) matches Some(target) && item_nbt::item_name(to.cat, target, to.version)
            == Some(name),
        0 <= count <= 127,
    ensures
        item_nbt::nbt_form(alone(component, seq![1u8] + inner_bytes(id, count)), to) == Some(
            seq![
                tagged(
                    wire::key("Items"),
                    nbt::list_tag(
                        seq![
                            nbt::compound_tag(
                                seq![
                                    tagged(wire::key("id"), nbt::string_tag(name)),
                                    tagged(wire::key("Count"), nbt::byte_tag(count as u8)),
                                ],
                            ),
                        ],
                    ),
                ),
            ],
        ),
{
    let data = seq![1u8] + inner_bytes(id, count);
    lemma_listed(id, count, name, to);
    lemma_bundle(component, data, item_nbt::stack_tags(data, false, to).unwrap(), to);
}

proof fn lemma_bundle(component: i32, data: Seq<u8>, tags: Seq<Tag>, to: &Target)
    requires
        item_tags::stands_for(component, DataComponent::BundleContents, to),
        item_nbt::stack_tags(data, false, to) == Some(tags),
    ensures
        item_nbt::nbt_form(alone(component, data), to) == Some(seq![tagged(wire::key("Items"), nbt::list_tag(tags))]),
{
    let entry = tagged(wire::key("Items"), nbt::list_tag(tags));
    item_tags::lemma_put_one(entry);
    assert(item_nbt::drafted(item_tags::blank(), alone(component, data), 0, to) == item_nbt::rooted(
        item_tags::blank(),
        seq![entry],
    )) by {
        reveal(alone);
    }
    item_tags::lemma_rooted(DataComponent::BundleContents, component, data, to, seq![entry]);
}

// --- sounds ------------------------------------------------------------------------------------------------

/// A sound goes to a client under the client's own number. From 1.19.3 on numbers count from
/// one, and zero stands for a sound that is spelled out, which stays.
pub proof fn sounds_are_renumbered(id: i32, shown: i32, name: Seq<u8>, rest: Seq<u8>, to: &Target)
    requires
        0 <= id < i32::MAX,
        mapping::mapped(to.ids.sounds@, id) == Some(shown),
        shown < i32::MAX,
        item_tags::is_text(name),
    ensures
        to.version < version::V_1_19_3 ==> sound::holder_written(wire::enc_var_int(id) + rest, to) == Some(
            Some((wire::enc_var_int(shown), rest)),
        ),
        to.version >= version::V_1_19_3 ==> sound::holder_written(wire::enc_var_int((id + 1) as i32) + rest, to) == Some(
            Some((wire::enc_var_int((shown + 1) as i32), rest)),
        ),
        to.version >= version::V_1_19_3 ==> sound::holder_written(
            seq![0u8] + (wire::enc_str(name) + (seq![0u8] + rest)),
            to,
        ) == Some(Some((seq![0u8] + (wire::enc_str(name) + seq![0u8]), rest))),
{
    wire::var_int_round_trip(id, rest);
    wire::var_int_round_trip((id + 1) as i32, rest);
    lemma_inline_sound(name, rest, to);
}

proof fn lemma_inline_sound(name: Seq<u8>, rest: Seq<u8>, to: &Target)
    requires
        item_tags::is_text(name),
    ensures
        to.version >= version::V_1_19_3 ==> sound::holder_written(
            seq![0u8] + (wire::enc_str(name) + (seq![0u8] + rest)),
            to,
        ) == Some(Some((seq![0u8] + (wire::enc_str(name) + seq![0u8]), rest))),
{
    reveal_with_fuel(shape::recode, 3);
    let end = seq![0u8] + rest;
    assert(wire::enc_var_int(0) =~= seq![0u8]);
    wire::var_int_round_trip(0, wire::enc_str(name) + end);
    wire::str_round_trip(name, end);
    assert(end.skip(1) =~= rest);
    assert(wire::enc_bool(false) =~= seq![0u8]);
}

} // verus!
