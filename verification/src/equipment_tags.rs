//! What the tags of potions, heads and attribute modifiers say, field by field.
use vstd::prelude::*;
use crate::catalog::Catalog;
use crate::catalog::DataComponent;
use crate::item_component;
use crate::item_nbt;
use crate::item_nbt::ModifierView;
use crate::item_nbt::ProfileView;
use crate::item_nbt::PropertyView;
use crate::item_tags;
use crate::item_tags::alone;
use crate::item_tags::tagged;
use crate::nbt;
use crate::nbt::Entry;
use crate::nbt::Tag;
use crate::target::Target;
use crate::version;
use crate::version::Version;
use crate::wire;

verus! {

// --- potions -----------------------------------------------------------------------------------------------

/// An effect as the server writes it: how strong it is, how long it lasts, whether it is
/// ambient, whether it has particles, whether it has an icon, and that it hides no other.
pub open spec fn effect_bytes(amplifier: i32, duration: i32, ambient: bool, particles: bool, icon: bool) -> Seq<u8> {
    wire::enc_var_int(amplifier) + wire::enc_var_int(duration) + (wire::enc_bool(ambient) + wire::enc_bool(particles)
        + wire::enc_bool(icon) + seq![0u8])
}

/// The tags of an effect.
pub open spec fn effect_tags(amplifier: i32, duration: i32, ambient: bool, particles: bool, icon: bool) -> Seq<Entry> {
    seq![
        tagged(wire::key("Amplifier"), nbt::byte_tag(item_nbt::low_byte(amplifier))),
        tagged(wire::key("Duration"), nbt::int_tag(duration)),
        tagged(wire::key("Ambient"), nbt::bool_tag(ambient)),
        tagged(wire::key("ShowParticles"), nbt::bool_tag(particles)),
        tagged(wire::key("ShowIcon"), nbt::bool_tag(icon)),
    ]
}

proof fn lemma_effect_tags(amplifier: i32, duration: i32, flags: Seq<u8>, ambient: bool, particles: bool, icon: bool)
    requires
        flags.len() >= 3,
        ambient == (flags[0] != 0),
        particles == (flags[1] != 0),
        icon == (flags[2] != 0),
    ensures
        item_nbt::effect_entries(amplifier, duration, flags) == effect_tags(
            amplifier,
            duration,
            ambient,
            particles,
            icon,
        ),
{
    item_tags::lemma_words();
    let a = tagged(wire::key("Amplifier"), nbt::byte_tag(item_nbt::low_byte(amplifier)));
    let b = tagged(wire::key("Duration"), nbt::int_tag(duration));
    let c = tagged(wire::key("Ambient"), nbt::bool_tag(ambient));
    let d = tagged(wire::key("ShowParticles"), nbt::bool_tag(particles));
    let e = tagged(wire::key("ShowIcon"), nbt::bool_tag(icon));
    item_tags::lemma_put_one(a);
    item_tags::lemma_put_two(a, b);
    item_tags::lemma_put_three(a, b, c);
    item_tags::lemma_put_four(a, b, c, d);
    item_tags::lemma_push(seq![a, b, c, d], e.name, e.tag);
    assert(seq![a, b, c, d].push(e) =~= seq![a, b, c, d, e]);
}

proof fn lemma_effect(
    amplifier: i32,
    duration: i32,
    ambient: bool,
    particles: bool,
    icon: bool,
    rest: Seq<u8>,
)
    ensures
        item_nbt::take_effect(effect_bytes(amplifier, duration, ambient, particles, icon) + rest) == Some(
            (effect_tags(amplifier, duration, ambient, particles, icon), rest),
        ),
{
    let a = wire::enc_var_int(amplifier);
    let b = wire::enc_var_int(duration);
    let four = wire::enc_bool(ambient) + wire::enc_bool(particles) + wire::enc_bool(icon) + seq![0u8];
    let flags = four + rest;
    wire::three_pieces(a, b, four, rest);
    wire::var_int_round_trip(amplifier, b + flags);
    wire::var_int_round_trip(duration, flags);
    assert(four.len() == 4);
    assert(four[0] == wire::enc_bool(ambient)[0] && four[1] == wire::enc_bool(particles)[0] && four[2] == wire::enc_bool(
        icon,
    )[0] && four[3] == 0);
    assert(flags[0] == four[0] && flags[1] == four[1] && flags[2] == four[2] && flags[3] == four[3]);
    assert(flags.skip(4) =~= rest);
    lemma_effect_tags(amplifier, duration, flags, ambient, particles, icon);
    let s = a + (b + flags);
    lemma_var_int_is_there(amplifier);
    assert(flags.len() < s.len());
}

proof fn lemma_var_int_is_there(n: i32)
    ensures
        wire::enc_var_int(n).len() > 0,
{
}

/// What the server writes of a potion: its kind, its colour, one effect of its own, and no name.
pub open spec fn potion_bytes(potion: i32, color: i32, effect: i32, body: Seq<u8>) -> Seq<u8> {
    seq![1u8] + wire::enc_var_int(potion) + (seq![1u8] + wire::enc_i32(color) + (seq![1u8] + wire::enc_var_int(effect)
        + (body + seq![0u8])))
}

proof fn lemma_custom_effects(effect: i32, target: i32, body: Seq<u8>, entries: Seq<Entry>, version: Version, cat: &Catalog)
    requires
        forall|rest: Seq<u8>| #[trigger] item_nbt::take_effect(body + rest) == Some((entries, rest)),
        item_nbt::effect_id(cat, effect, version) == Some(target),
    ensures
        item_nbt::custom_effects(seq![1u8] + wire::enc_var_int(effect) + (body + seq![0u8]), version, cat) == Some(
            seq![nbt::compound_tag(nbt::put(entries, wire::key("Id"), nbt::byte_tag(item_nbt::low_byte(target))))],
        ),
{
    let end = seq![0u8];
    let number = wire::enc_var_int(effect);
    let t = number + (body + end);
    assert(wire::enc_var_int(1) =~= seq![1u8]);
    wire::two_pieces(seq![1u8], number, body + end);
    wire::var_int_round_trip(1, t);
    wire::var_int_round_trip(effect, body + end);
    assert(item_nbt::take_effect(body + end) == Some((entries, end)));
    let tag = nbt::compound_tag(nbt::put(entries, wire::key("Id"), nbt::byte_tag(item_nbt::low_byte(target))));
    let none = Seq::<Tag>::empty();
    assert(none.push(tag) =~= seq![tag]);
    assert(item_nbt::take_effects(seq![tag], 0, end, version, cat) == Some((seq![tag], end)));
    assert(item_nbt::take_effects(none, 1, t, version, cat) == Some((seq![tag], end)));
    assert(end.skip(1) =~= Seq::<u8>::empty());
    assert(item_nbt::take_opt_str(end) == Some((None::<Seq<u8>>, Seq::<u8>::empty())));
}

proof fn lemma_potion_root(
    data: Seq<u8>,
    potion: i32,
    color: i32,
    s2: Seq<u8>,
    s3: Seq<u8>,
    s4: Seq<u8>,
    name: Seq<u8>,
    tags: Seq<Tag>,
    version: Version,
    cat: &Catalog,
)
    requires
        wire::take_bool(data) == Some((true, s2)),
        wire::take_var_int(s2) == Some((potion, s3)),
        wire::take_bool(s3) matches Some((true, t)) && wire::take_i32(t) == Some((color, s4)),
        item_nbt::potion_name(cat, potion, version) == Some(name),
        item_nbt::custom_effects(s4, version, cat) == Some(tags),
        tags.len() > 0,
    ensures
        item_nbt::with_potion(seq![], data, version, cat) == seq![
            tagged(wire::key("Potion"), nbt::string_tag(name)),
            tagged(wire::key("CustomPotionColor"), nbt::int_tag(color)),
            tagged(wire::key("CustomPotionEffects"), nbt::list_tag(tags)),
        ],
{
    item_tags::lemma_words();
    let a = tagged(wire::key("Potion"), nbt::string_tag(name));
    let b = tagged(wire::key("CustomPotionColor"), nbt::int_tag(color));
    let c = tagged(wire::key("CustomPotionEffects"), nbt::list_tag(tags));
    item_tags::lemma_put_one(a);
    item_tags::lemma_put_two(a, b);
    item_tags::lemma_put_three(a, b, c);
}

/// A potion shows the name of its kind, its colour, and its own effects under the client's
/// numbers: how strong each is, how long it lasts, and whether it is ambient, has particles
/// and has an icon.
#[verifier::spinoff_prover]
#[verifier::rlimit(60)]
pub proof fn potions_are_shown(
    id: i32,
    potion: i32,
    name: Seq<u8>,
    color: i32,
    effect: i32,
    target: i32,
    amplifier: i32,
    duration: i32,
    ambient: bool,
    particles: bool,
    icon: bool,
    to: &Target,
)
    requires
        item_tags::stands_for(id, DataComponent::PotionContents, to),
        item_nbt::potion_name(to.cat, potion, to.version) == Some(name),
        item_nbt::effect_id(to.cat, effect, to.version) == Some(target),
    ensures
        item_nbt::nbt_form(
            alone(
                id,
                potion_bytes(potion, color, effect, effect_bytes(amplifier, duration, ambient, particles, icon)),
            ),
            to,
        ) == Some(
            seq![
                tagged(wire::key("Potion"), nbt::string_tag(name)),
                tagged(wire::key("CustomPotionColor"), nbt::int_tag(color)),
                tagged(
                    wire::key("CustomPotionEffects"),
                    nbt::list_tag(
                        seq![
                            nbt::compound_tag(
                                effect_tags(amplifier, duration, ambient, particles, icon).push(
                                    tagged(wire::key("Id"), nbt::byte_tag(item_nbt::low_byte(target))),
                                ),
                            ),
                        ],
                    ),
                ),
            ],
        ),
{
    let body = effect_bytes(amplifier, duration, ambient, particles, icon);
    let entries = effect_tags(amplifier, duration, ambient, particles, icon);
    assert forall|rest: Seq<u8>| #[trigger] item_nbt::take_effect(body + rest) == Some((entries, rest)) by {
        lemma_effect(amplifier, duration, ambient, particles, icon, rest);
    }
    lemma_custom_effects(effect, target, body, entries, to.version, to.cat);
    let tail = seq![1u8] + wire::enc_var_int(effect) + (body + seq![0u8]);
    let middle = seq![1u8] + wire::enc_i32(color) + tail;
    let data = potion_bytes(potion, color, effect, body);
    lemma_flag(wire::enc_var_int(potion) + middle);
    lemma_flag(wire::enc_i32(color) + tail);
    wire::two_pieces(seq![1u8], wire::enc_var_int(potion), middle);
    wire::two_pieces(seq![1u8], wire::enc_i32(color), tail);
    wire::var_int_round_trip(potion, middle);
    wire::i32_round_trip(color, tail);
    lemma_with_number(entries, target, amplifier, duration, ambient, particles, icon);
    let tags = seq![
        nbt::compound_tag(entries.push(tagged(wire::key("Id"), nbt::byte_tag(item_nbt::low_byte(target))))),
    ];
    lemma_potion_root(
        data,
        potion,
        color,
        wire::enc_var_int(potion) + middle,
        middle,
        tail,
        name,
        tags,
        to.version,
        to.cat,
    );
    lemma_potion_of(id, data, to);
}

proof fn lemma_flag(rest: Seq<u8>)
    ensures
        wire::take_bool(seq![1u8] + rest) == Some((true, rest)),
{
    assert((seq![1u8] + rest).skip(1) =~= rest);
}

proof fn lemma_with_number(
    entries: Seq<Entry>,
    target: i32,
    amplifier: i32,
    duration: i32,
    ambient: bool,
    particles: bool,
    icon: bool,
)
    requires
        entries == effect_tags(amplifier, duration, ambient, particles, icon),
    ensures
        nbt::put(entries, wire::key("Id"), nbt::byte_tag(item_nbt::low_byte(target))) == entries.push(
            tagged(wire::key("Id"), nbt::byte_tag(item_nbt::low_byte(target))),
        ),
{
    item_tags::lemma_words();
    item_tags::lemma_push(entries, wire::key("Id"), nbt::byte_tag(item_nbt::low_byte(target)));
}

proof fn lemma_potion_of(id: i32, data: Seq<u8>, to: &Target)
    requires
        item_tags::stands_for(id, DataComponent::PotionContents, to),
        item_nbt::with_potion(seq![], data, to.version, to.cat).len() > 0,
    ensures
        item_nbt::nbt_form(alone(id, data), to) == Some(item_nbt::with_potion(seq![], data, to.version, to.cat)),
{
    item_tags::lemma_root_of(
        DataComponent::PotionContents,
        id,
        data,
        item_nbt::with_potion(seq![], data, to.version, to.cat),
        to,
    );
}

// --- attribute modifiers ---------------------------------------------------------------------------------------

/// What the server writes of one modifier: its attribute, its name, its amount, how it is
/// applied, where it has to be worn, and that it is shown as usual.
pub open spec fn modifier_bytes(attribute: i32, id: Seq<u8>, amount: u64, operation: i32, slot: i32) -> Seq<u8> {
    wire::enc_var_int(attribute) + wire::enc_str(id) + wire::enc_u64(amount) + wire::enc_var_int(operation)
        + wire::enc_var_int(slot) + seq![0u8]
}

proof fn lemma_modifier(attribute: i32, id: Seq<u8>, amount: u64, operation: i32, slot: i32)
    requires
        item_tags::is_text(id),
    ensures
        item_nbt::modifiers_of(seq![1u8] + modifier_bytes(attribute, id, amount, operation, slot)) == seq![
            ModifierView { attribute, id, amount, operation, slot },
        ],
{
    reveal(item_nbt::take_modifier);
    let s = modifier_bytes(attribute, id, amount, operation, slot);
    let end = seq![0u8];
    wire::five_pieces(
        wire::enc_var_int(attribute),
        wire::enc_str(id),
        wire::enc_u64(amount),
        wire::enc_var_int(operation),
        wire::enc_var_int(slot),
        end,
    );
    let s4 = wire::enc_var_int(slot) + end;
    let s3 = wire::enc_var_int(operation) + s4;
    let s2 = wire::enc_u64(amount) + s3;
    let s1 = wire::enc_str(id) + s2;
    assert(wire::enc_var_int(1) =~= seq![1u8]);
    assert(wire::enc_var_int(0) =~= seq![0u8]);
    wire::var_int_round_trip(1, s);
    wire::var_int_round_trip(attribute, s1);
    wire::str_round_trip(id, s2);
    wire::u64_round_trip(amount, s3);
    wire::var_int_round_trip(operation, s4);
    wire::var_int_round_trip(slot, end);
    wire::no_piece(end);
    wire::var_int_round_trip(0, seq![]);
    let modifier = ModifierView { attribute, id, amount, operation, slot };
    assert(wire::take_var_int(s) == Some((attribute, s1)));
    assert(wire::take_str(s1) == Some((id, s2)));
    assert(wire::take_u64(s2) == Some((amount, s3)));
    assert(wire::take_var_int(s3) == Some((operation, s4)));
    assert(wire::take_var_int(s4) == Some((slot, end)));
    assert(wire::take_var_int(end) == Some((0i32, Seq::<u8>::empty())));
    assert(item_nbt::take_modifier(s) == Some((modifier, Seq::<u8>::empty())));
    let none = Seq::<ModifierView>::empty();
    assert(none.push(modifier) =~= seq![modifier]);
    assert(item_nbt::take_modifiers(seq![modifier], 0, Seq::<u8>::empty()) == Some(seq![modifier]));
    assert(item_nbt::take_modifiers(none, 1, s) == Some(seq![modifier]));
}

/// The words of a modifier's identity from 1.16 on.
pub open spec fn uuid_words(id: Seq<u8>) -> Tag {
    let (high, low) = item_component::modifier_uuid(id, 0);
    nbt::four_words_tag(
        wire::i32_of_bits((high / 0x1_0000_0000) as u32),
        wire::i32_of_bits((high % 0x1_0000_0000) as u32),
        wire::i32_of_bits((low / 0x1_0000_0000) as u32),
        wire::i32_of_bits((low % 0x1_0000_0000) as u32),
    )
}

/// Entries put one after the other.
#[verifier::opaque]
spec fn six_puts(a: Entry, b: Entry, c: Entry, d: Entry, e: Entry, f: Entry) -> Seq<Entry> {
    nbt::put(
        nbt::put(
            nbt::put(
                nbt::put(nbt::put(nbt::put(seq![], a.name, a.tag), b.name, b.tag), c.name, c.tag),
                d.name,
                d.tag,
            ),
            e.name,
            e.tag,
        ),
        f.name,
        f.tag,
    )
}

proof fn lemma_modifier_puts(m: ModifierView, attribute: Seq<u8>, worn: Seq<u8>, version: Version, cat: &Catalog)
    requires
        version >= version::V_1_16,
        item_nbt::legacy_attribute(cat, m.attribute, version) == Some(attribute),
        0 <= m.operation <= 2,
        item_nbt::slot_name(m.slot) == Some(Some(worn)),
    ensures
        item_nbt::attribute_entry(m, 0, version, cat) == Some(
            six_puts(
                tagged(wire::key("AttributeName"), nbt::string_tag(attribute)),
                tagged(wire::key("Name"), nbt::string_tag(m.id)),
                tagged(wire::key("Amount"), nbt::double_tag(m.amount)),
                tagged(wire::key("Operation"), nbt::int_tag(m.operation)),
                tagged(wire::key("UUID"), uuid_words(m.id)),
                tagged(wire::key("Slot"), nbt::string_tag(worn)),
            ),
        ),
{
    reveal(six_puts);
    lemma_uuid(m.id, version);
}

proof fn lemma_uuid(id: Seq<u8>, version: Version)
    requires
        version >= version::V_1_16,
    ensures
        forall|c: Seq<Entry>|
            #[trigger] item_nbt::with_modifier_uuid(c, id, 0, version) == nbt::put(c, wire::key("UUID"), uuid_words(id)),
{
}

proof fn lemma_modifier_names()
    ensures
        wire::key("AttributeName") != wire::key("Name"),
        wire::key("AttributeName") != wire::key("Amount"),
        wire::key("AttributeName") != wire::key("Operation"),
        wire::key("AttributeName") != wire::key("UUID"),
        wire::key("AttributeName") != wire::key("Slot"),
        wire::key("Name") != wire::key("Amount"),
        wire::key("Name") != wire::key("Operation"),
        wire::key("Name") != wire::key("UUID"),
        wire::key("Name") != wire::key("Slot"),
        wire::key("Amount") != wire::key("Operation"),
        wire::key("Amount") != wire::key("UUID"),
        wire::key("Amount") != wire::key("Slot"),
        wire::key("Operation") != wire::key("UUID"),
        wire::key("Operation") != wire::key("Slot"),
        wire::key("UUID") != wire::key("Slot"),
{
    item_tags::lemma_words();
}

proof fn lemma_six(a: Entry, b: Entry, c: Entry, d: Entry, e: Entry, f: Entry)
    requires
        a.name != b.name && a.name != c.name && a.name != d.name && a.name != e.name && a.name != f.name,
        b.name != c.name && b.name != d.name && b.name != e.name && b.name != f.name,
        c.name != d.name && c.name != e.name && c.name != f.name,
        d.name != e.name && d.name != f.name,
        e.name != f.name,
    ensures
        six_puts(a, b, c, d, e, f) == seq![a, b, c, d, e, f],
{
    reveal(six_puts);
    item_tags::lemma_put_one(a);
    item_tags::lemma_put_two(a, b);
    item_tags::lemma_put_three(a, b, c);
    item_tags::lemma_put_four(a, b, c, d);
    item_tags::lemma_push(seq![a, b, c, d], e.name, e.tag);
    assert(seq![a, b, c, d].push(e) =~= seq![a, b, c, d, e]);
    item_tags::lemma_push(seq![a, b, c, d, e], f.name, f.tag);
    assert(seq![a, b, c, d, e].push(f) =~= seq![a, b, c, d, e, f]);
}

/// An attribute modifier shows the old name of its attribute, its own name, its amount, how it
/// is applied, its identity, and where it has to be worn: in either hand, or as one of the
/// four pieces of armour.
#[verifier::spinoff_prover]
#[verifier::rlimit(80)]
pub proof fn attribute_modifiers_are_shown(
    id: i32,
    m: ModifierView,
    attribute: Seq<u8>,
    worn: Seq<u8>,
    to: &Target,
)
    requires
        item_tags::stands_for(id, DataComponent::AttributeModifiers, to),
        to.version >= version::V_1_16,
        item_nbt::legacy_attribute(to.cat, m.attribute, to.version) == Some(attribute),
        item_tags::is_text(m.id),
        0 <= m.operation <= 2,
        m.slot == 1 && worn == wire::key("mainhand") || m.slot == 2 && worn == wire::key("offhand") || m.slot == 4
            && worn == wire::key("feet") || m.slot == 5 && worn == wire::key("legs") || m.slot == 6 && worn == wire::key(
            "chest",
        ) || m.slot == 7 && worn == wire::key("head"),
    ensures
        item_nbt::nbt_form(
            alone(id, seq![1u8] + modifier_bytes(m.attribute, m.id, m.amount, m.operation, m.slot)),
            to,
        ) == Some(
            seq![
                tagged(
                    wire::key("AttributeModifiers"),
                    nbt::list_tag(
                        seq![
                            nbt::compound_tag(
                                seq![
                                    tagged(wire::key("AttributeName"), nbt::string_tag(attribute)),
                                    tagged(wire::key("Name"), nbt::string_tag(m.id)),
                                    tagged(wire::key("Amount"), nbt::double_tag(m.amount)),
                                    tagged(wire::key("Operation"), nbt::int_tag(m.operation)),
                                    tagged(wire::key("UUID"), uuid_words(m.id)),
                                    tagged(wire::key("Slot"), nbt::string_tag(worn)),
                                ],
                            ),
                        ],
                    ),
                ),
            ],
        ),
{
    let data = seq![1u8] + modifier_bytes(m.attribute, m.id, m.amount, m.operation, m.slot);
    lemma_modifier(m.attribute, m.id, m.amount, m.operation, m.slot);
    assert(item_nbt::slot_name(m.slot) == Some(Some(worn)));
    lemma_modifier_shape(id, data, m, attribute, worn, to);
    lemma_modifier_tags(m, attribute, worn);
}

proof fn lemma_modifier_tags(m: ModifierView, attribute: Seq<u8>, worn: Seq<u8>)
    ensures
        six_puts(
            tagged(wire::key("AttributeName"), nbt::string_tag(attribute)),
            tagged(wire::key("Name"), nbt::string_tag(m.id)),
            tagged(wire::key("Amount"), nbt::double_tag(m.amount)),
            tagged(wire::key("Operation"), nbt::int_tag(m.operation)),
            tagged(wire::key("UUID"), uuid_words(m.id)),
            tagged(wire::key("Slot"), nbt::string_tag(worn)),
        ) == seq![
            tagged(wire::key("AttributeName"), nbt::string_tag(attribute)),
            tagged(wire::key("Name"), nbt::string_tag(m.id)),
            tagged(wire::key("Amount"), nbt::double_tag(m.amount)),
            tagged(wire::key("Operation"), nbt::int_tag(m.operation)),
            tagged(wire::key("UUID"), uuid_words(m.id)),
            tagged(wire::key("Slot"), nbt::string_tag(worn)),
        ],
{
    lemma_modifier_names();
    lemma_six(
        tagged(wire::key("AttributeName"), nbt::string_tag(attribute)),
        tagged(wire::key("Name"), nbt::string_tag(m.id)),
        tagged(wire::key("Amount"), nbt::double_tag(m.amount)),
        tagged(wire::key("Operation"), nbt::int_tag(m.operation)),
        tagged(wire::key("UUID"), uuid_words(m.id)),
        tagged(wire::key("Slot"), nbt::string_tag(worn)),
    );
}

proof fn lemma_modifier_shape(id: i32, data: Seq<u8>, m: ModifierView, attribute: Seq<u8>, worn: Seq<u8>, to: &Target)
    requires
        item_tags::stands_for(id, DataComponent::AttributeModifiers, to),
        item_nbt::modifiers_of(data) == seq![m],
        to.version >= version::V_1_16,
        item_nbt::legacy_attribute(to.cat, m.attribute, to.version) == Some(attribute),
        0 <= m.operation <= 2,
        item_nbt::slot_name(m.slot) == Some(Some(worn)),
    ensures
        item_nbt::nbt_form(alone(id, data), to) == Some(
            seq![
                tagged(
                    wire::key("AttributeModifiers"),
                    nbt::list_tag(
                        seq![
                            nbt::compound_tag(
                                six_puts(
                                    tagged(wire::key("AttributeName"), nbt::string_tag(attribute)),
                                    tagged(wire::key("Name"), nbt::string_tag(m.id)),
                                    tagged(wire::key("Amount"), nbt::double_tag(m.amount)),
                                    tagged(wire::key("Operation"), nbt::int_tag(m.operation)),
                                    tagged(wire::key("UUID"), uuid_words(m.id)),
                                    tagged(wire::key("Slot"), nbt::string_tag(worn)),
                                ),
                            ),
                        ],
                    ),
                ),
            ],
        ),
{
    lemma_modifier_puts(m, attribute, worn, to.version, to.cat);
    lemma_modifier_of(id, data, m, item_nbt::attribute_entry(m, 0, to.version, to.cat).unwrap(), to);
}

proof fn lemma_modifier_of(id: i32, data: Seq<u8>, m: ModifierView, entries: Seq<Entry>, to: &Target)
    requires
        item_tags::stands_for(id, DataComponent::AttributeModifiers, to),
        item_nbt::modifiers_of(data) == seq![m],
        item_nbt::attribute_entry(m, 0, to.version, to.cat) == Some(entries),
    ensures
        item_nbt::nbt_form(alone(id, data), to) == Some(
            seq![tagged(wire::key("AttributeModifiers"), nbt::list_tag(seq![nbt::compound_tag(entries)]))],
        ),
{
    let all = seq![m];
    let tag = nbt::compound_tag(entries);
    let none = Seq::<Tag>::empty();
    assert(none.push(tag) =~= seq![tag]);
    assert(item_nbt::attribute_tags(all, 1, seq![tag], to.version, to.cat) == seq![tag]);
    assert(item_nbt::attribute_tags(all, 0, none, to.version, to.cat) == seq![tag]);
    let entry = tagged(wire::key("AttributeModifiers"), nbt::list_tag(seq![tag]));
    item_tags::lemma_put_one(entry);
    item_tags::lemma_root_of(DataComponent::AttributeModifiers, id, data, seq![entry], to);
}

// --- heads ----------------------------------------------------------------------------------------------------

/// What the server writes of a known profile: its identity in four words, its name, and one
/// property with a signature.
pub open spec fn profile_bytes(
    id: (i32, i32, i32, i32),
    name: Seq<u8>,
    property: Seq<u8>,
    value: Seq<u8>,
    signature: Seq<u8>,
    end: Seq<u8>,
) -> Seq<u8> {
    seq![0u8] + (wire::enc_i32(id.0) + wire::enc_i32(id.1) + wire::enc_i32(id.2) + wire::enc_i32(id.3) + (wire::enc_str(
        name,
    ) + (seq![1u8] + (wire::enc_str(property) + wire::enc_str(value) + (seq![1u8] + wire::enc_str(signature) + end)))))
}

proof fn lemma_profile(
    id: (i32, i32, i32, i32),
    name: Seq<u8>,
    property: Seq<u8>,
    value: Seq<u8>,
    signature: Seq<u8>,
    end: Seq<u8>,
)
    requires
        item_tags::is_text(name),
        item_tags::is_text(property),
        item_tags::is_text(value),
        item_tags::is_text(signature),
    ensures
        item_nbt::profile_of(profile_bytes(id, name, property, value, signature, end)) == Some(
            ProfileView {
                name: Some(name),
                id: Some(id),
                properties: seq![PropertyView { name: property, value, signature: Some(signature) }],
            },
        ),
{
    let s5 = seq![1u8] + wire::enc_str(signature) + end;
    let s4 = wire::enc_str(property) + wire::enc_str(value) + s5;
    let s3 = seq![1u8] + s4;
    let s2 = wire::enc_str(name) + s3;
    let s1 = wire::enc_i32(id.0) + wire::enc_i32(id.1) + wire::enc_i32(id.2) + wire::enc_i32(id.3) + s2;
    assert(wire::enc_var_int(0) =~= seq![0u8]);
    assert(wire::enc_var_int(1) =~= seq![1u8]);
    wire::var_int_round_trip(0, s1);
    wire::four_pieces(wire::enc_i32(id.0), wire::enc_i32(id.1), wire::enc_i32(id.2), wire::enc_i32(id.3), s2);
    wire::i32_round_trip(id.0, wire::enc_i32(id.1) + (wire::enc_i32(id.2) + (wire::enc_i32(id.3) + s2)));
    wire::i32_round_trip(id.1, wire::enc_i32(id.2) + (wire::enc_i32(id.3) + s2));
    wire::i32_round_trip(id.2, wire::enc_i32(id.3) + s2);
    wire::i32_round_trip(id.3, s2);
    wire::str_round_trip(name, s3);
    wire::var_int_round_trip(1, s4);
    lemma_property(property, value, signature, end);
    let p = PropertyView { name: property, value, signature: Some(signature) };
    let none = Seq::<PropertyView>::empty();
    assert(none.push(p) =~= seq![p]);
    assert(item_nbt::take_properties(seq![p], 0, end) == Some(seq![p]));
    assert(item_nbt::take_properties(none, 1, s4) == Some(seq![p]));
}

proof fn lemma_property(property: Seq<u8>, value: Seq<u8>, signature: Seq<u8>, end: Seq<u8>)
    requires
        item_tags::is_text(property),
        item_tags::is_text(value),
        item_tags::is_text(signature),
    ensures
        item_nbt::take_property(
            wire::enc_str(property) + wire::enc_str(value) + (seq![1u8] + wire::enc_str(signature) + end),
        ) == Some((PropertyView { name: property, value, signature: Some(signature) }, end)),
{
    reveal(item_nbt::take_property);
    let s5 = seq![1u8] + wire::enc_str(signature) + end;
    wire::two_pieces(wire::enc_str(property), wire::enc_str(value), s5);
    wire::str_round_trip(property, wire::enc_str(value) + s5);
    wire::str_round_trip(value, s5);
    wire::two_pieces(seq![1u8], wire::enc_str(signature), end);
    lemma_flag(wire::enc_str(signature) + end);
    wire::str_round_trip(signature, end);
    let s = wire::enc_str(property) + wire::enc_str(value) + s5;
    assert(wire::take_str(s) == Some((property, wire::enc_str(value) + s5)));
    assert(wire::take_str(wire::enc_str(value) + s5) == Some((value, s5)));
    assert(item_nbt::take_opt_str(s5) == Some((Some(signature), end)));
}

/// A texture: its value and its signature.
pub open spec fn texture(value: Seq<u8>, signature: Seq<u8>) -> Tag {
    nbt::compound_tag(
        seq![
            tagged(wire::key("Value"), nbt::string_tag(value)),
            tagged(wire::key("Signature"), nbt::string_tag(signature)),
        ],
    )
}

proof fn lemma_owner(id: (i32, i32, i32, i32), name: Seq<u8>, value: Seq<u8>, signature: Seq<u8>, version: Version)
    requires
        version >= version::V_1_16,
    ensures
        item_nbt::skull_owner(
            ProfileView {
                name: Some(name),
                id: Some(id),
                properties: seq![PropertyView { name: wire::key("textures"), value, signature: Some(signature) }],
            },
            version,
        ) == Some(
            seq![
                tagged(wire::key("Name"), nbt::string_tag(name)),
                tagged(wire::key("Id"), nbt::four_words_tag(id.0, id.1, id.2, id.3)),
                tagged(
                    wire::key("Properties"),
                    nbt::compound_tag(
                        seq![
                            tagged(
                                wire::key("textures"),
                                nbt::list_tag(
                                    seq![
                                        texture(value, signature),
                                    ],
                                ),
                            ),
                        ],
                    ),
                ),
            ],
        ),
{
    lemma_textures(value, signature);
    item_tags::lemma_words();
    let textures = tagged(wire::key("textures"), nbt::list_tag(seq![texture(value, signature)]));
    item_tags::lemma_put_one(textures);
    let a = tagged(wire::key("Name"), nbt::string_tag(name));
    let b = tagged(wire::key("Id"), nbt::four_words_tag(id.0, id.1, id.2, id.3));
    let c = tagged(wire::key("Properties"), nbt::compound_tag(seq![textures]));
    item_tags::lemma_put_one(a);
    item_tags::lemma_put_two(a, b);
    item_tags::lemma_put_three(a, b, c);
}

proof fn lemma_textures(value: Seq<u8>, signature: Seq<u8>)
    ensures
        item_nbt::texture_tags(
            seq![PropertyView { name: wire::key("textures"), value, signature: Some(signature) }],
            0,
            seq![],
        ) == seq![texture(value, signature)],
{
    item_tags::lemma_words();
    let p = PropertyView { name: wire::key("textures"), value, signature: Some(signature) };
    let v = tagged(wire::key("Value"), nbt::string_tag(value));
    let s = tagged(wire::key("Signature"), nbt::string_tag(signature));
    item_tags::lemma_put_one(v);
    item_tags::lemma_put_two(v, s);
    let tag = texture(value, signature);
    assert(item_nbt::texture_tag(p) == tag);
    let none = Seq::<Tag>::empty();
    assert(none.push(tag) =~= seq![tag]);
    assert(item_nbt::texture_tags(seq![p], 1, seq![tag]) == seq![tag]);
    assert(item_nbt::texture_tags(seq![p], 0, none) == seq![tag]);
}

/// A head shows the name of its owner, the four words of its identity, and its texture with
/// the value before the signature.
#[verifier::spinoff_prover]
#[verifier::rlimit(60)]
pub proof fn owners_of_heads_are_shown(
    component: i32,
    id: (i32, i32, i32, i32),
    name: Seq<u8>,
    value: Seq<u8>,
    signature: Seq<u8>,
    end: Seq<u8>,
    to: &Target,
)
    requires
        item_tags::stands_for(component, DataComponent::Profile, to),
        to.version >= version::V_1_16,
        item_tags::is_text(name),
        item_tags::is_text(value),
        item_tags::is_text(signature),
    ensures
        item_nbt::nbt_form(
            alone(component, profile_bytes(id, name, wire::key("textures"), value, signature, end)),
            to,
        ) == Some(
            seq![
                tagged(
                    wire::key("SkullOwner"),
                    nbt::compound_tag(
                        seq![
                            tagged(wire::key("Name"), nbt::string_tag(name)),
                            tagged(wire::key("Id"), nbt::four_words_tag(id.0, id.1, id.2, id.3)),
                            tagged(
                                wire::key("Properties"),
                                nbt::compound_tag(
                                    seq![
                                        tagged(
                                            wire::key("textures"),
                                            nbt::list_tag(
                                                seq![
                                                    texture(value, signature),
                                                ],
                                            ),
                                        ),
                                    ],
                                ),
                            ),
                        ],
                    ),
                ),
            ],
        ),
{
    lemma_textures_is_text();
    lemma_profile(id, name, wire::key("textures"), value, signature, end);
    lemma_owner(id, name, value, signature, to.version);
    let data = profile_bytes(id, name, wire::key("textures"), value, signature, end);
    lemma_head_of(component, data, to);
}

proof fn lemma_textures_is_text()
    ensures
        item_tags::is_text(wire::key("textures")),
{
    reveal_strlit("textures");
    vstd::utf8::is_ascii_chars_encode_utf8("textures"@);
    vstd::utf8::encode_utf8_valid_utf8("textures"@);
}

proof fn lemma_head_of(id: i32, data: Seq<u8>, to: &Target)
    requires
        item_tags::stands_for(id, DataComponent::Profile, to),
        item_nbt::profile_of(data) matches Some(profile) && item_nbt::skull_owner(profile, to.version) is Some,
    ensures
        item_nbt::nbt_form(alone(id, data), to) == Some(
            seq![
                tagged(
                    wire::key("SkullOwner"),
                    nbt::compound_tag(
                        item_nbt::skull_owner(item_nbt::profile_of(data).unwrap(), to.version).unwrap(),
                    ),
                ),
            ],
        ),
{
    let owner = item_nbt::skull_owner(item_nbt::profile_of(data).unwrap(), to.version).unwrap();
    let entry = tagged(wire::key("SkullOwner"), nbt::compound_tag(owner));
    item_tags::lemma_put_one(entry);
    item_tags::lemma_root_of(DataComponent::Profile, id, data, seq![entry], to);
}

} // verus!
