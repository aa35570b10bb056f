//! Item stacks before 1.20.5: components as NBT, and NBT as components.
use vstd::prelude::*;
use vstd::slice::slice_subrange;
use vstd::slice::slice_to_vec;
use crate::catalog;
use crate::catalog::Catalog;
use crate::catalog::DataComponent;
use crate::item_component;
use crate::mapping;
use crate::mapping::ComposedMappings;
use crate::nbt;
use crate::nbt::Entry;
use crate::nbt::NbtCompound;
use crate::nbt::NbtTag;
use crate::nbt::Tag;
use crate::shape;
use crate::shape::Shape;
use crate::target;
use crate::target::Target;
use crate::target::Texts;
use crate::text;
use crate::types;
use crate::types::Component;
use crate::types::Item;
use crate::types::ItemComponent;
use crate::types::Stack;
use crate::version;
use crate::version::Version;
use crate::wire;
use crate::wire::ReadingError;

verus! {

// --- enchantments --------------------------------------------------------------------------

/// The enchantments that every client from 1.13.2 up has.
pub open spec fn is_enchantment_1_13(name: Seq<u8>) -> bool {
    ||| name == wire::key("aqua_affinity")
    ||| name == wire::key("bane_of_arthropods")
    ||| name == wire::key("binding_curse")
    ||| name == wire::key("blast_protection")
    ||| name == wire::key("channeling")
    ||| name == wire::key("depth_strider")
    ||| name == wire::key("efficiency")
    ||| name == wire::key("feather_falling")
    ||| name == wire::key("fire_aspect")
    ||| name == wire::key("fire_protection")
    ||| name == wire::key("flame")
    ||| name == wire::key("fortune")
    ||| name == wire::key("frost_walker")
    ||| name == wire::key("impaling")
    ||| name == wire::key("infinity")
    ||| name == wire::key("knockback")
    ||| name == wire::key("looting")
    ||| name == wire::key("loyalty")
    ||| name == wire::key("luck_of_the_sea")
    ||| name == wire::key("lure")
    ||| name == wire::key("mending")
    ||| name == wire::key("power")
    ||| name == wire::key("projectile_protection")
    ||| name == wire::key("protection")
    ||| name == wire::key("punch")
    ||| name == wire::key("respiration")
    ||| name == wire::key("riptide")
    ||| name == wire::key("sharpness")
    ||| name == wire::key("silk_touch")
    ||| name == wire::key("smite")
    ||| name == wire::key("sweeping")
    ||| name == wire::key("thorns")
    ||| name == wire::key("unbreaking")
    ||| name == wire::key("vanishing_curse")
}

/// The crossbow enchantments, which came with the crossbow in 1.14.
pub open spec fn is_enchantment_1_14(name: Seq<u8>) -> bool {
    ||| name == wire::key("multishot")
    ||| name == wire::key("piercing")
    ||| name == wire::key("quick_charge")
}

/// Whether clients of a release know an enchantment, by the name it had there.
pub open spec fn enchantment_known(name: Seq<u8>, version: Version) -> bool {
    ||| is_enchantment_1_13(name)
    ||| version >= version::V_1_14 && is_enchantment_1_14(name)
    ||| version >= version::V_1_16 && name == wire::key("soul_speed")
    ||| version >= version::V_1_19 && name == wire::key("swift_sneak")
}

fn known_in_1_13(name: &[u8]) -> (res: bool)
    ensures
        res == is_enchantment_1_13(name@),
{
    wire::same_bytes(name, "aqua_affinity".as_bytes()) || wire::same_bytes(name, "bane_of_arthropods".as_bytes())
        || wire::same_bytes(name, "binding_curse".as_bytes()) || wire::same_bytes(name, "blast_protection".as_bytes())
        || wire::same_bytes(name, "channeling".as_bytes()) || wire::same_bytes(name, "depth_strider".as_bytes())
        || wire::same_bytes(name, "efficiency".as_bytes()) || wire::same_bytes(name, "feather_falling".as_bytes())
        || wire::same_bytes(name, "fire_aspect".as_bytes()) || wire::same_bytes(name, "fire_protection".as_bytes())
        || wire::same_bytes(name, "flame".as_bytes()) || wire::same_bytes(name, "fortune".as_bytes())
        || wire::same_bytes(name, "frost_walker".as_bytes()) || wire::same_bytes(name, "impaling".as_bytes())
        || wire::same_bytes(name, "infinity".as_bytes()) || wire::same_bytes(name, "knockback".as_bytes())
        || wire::same_bytes(name, "looting".as_bytes()) || wire::same_bytes(name, "loyalty".as_bytes())
        || wire::same_bytes(name, "luck_of_the_sea".as_bytes()) || wire::same_bytes(name, "lure".as_bytes())
        || wire::same_bytes(name, "mending".as_bytes()) || wire::same_bytes(name, "power".as_bytes())
        || wire::same_bytes(name, "projectile_protection".as_bytes())
        || wire::same_bytes(name, "protection".as_bytes()) || wire::same_bytes(name, "punch".as_bytes())
        || wire::same_bytes(name, "respiration".as_bytes()) || wire::same_bytes(name, "riptide".as_bytes())
        || wire::same_bytes(name, "sharpness".as_bytes()) || wire::same_bytes(name, "silk_touch".as_bytes())
        || wire::same_bytes(name, "smite".as_bytes()) || wire::same_bytes(name, "sweeping".as_bytes())
        || wire::same_bytes(name, "thorns".as_bytes()) || wire::same_bytes(name, "unbreaking".as_bytes())
        || wire::same_bytes(name, "vanishing_curse".as_bytes())
}

pub fn enchantment_exists_on(name: &[u8], version: Version) -> (res: bool)
    ensures
        res == enchantment_known(name@, version),
{
    known_in_1_13(name) || (version >= version::V_1_14 && (wire::same_bytes(name, "multishot".as_bytes())
        || wire::same_bytes(name, "piercing".as_bytes()) || wire::same_bytes(name, "quick_charge".as_bytes())))
        || (version >= version::V_1_16 && wire::same_bytes(name, "soul_speed".as_bytes())) || (version
        >= version::V_1_19 && wire::same_bytes(name, "swift_sneak".as_bytes()))
}

/// The name an enchantment had before 1.20.5; one was renamed.
pub open spec fn old_enchantment_name(key: Seq<u8>) -> Seq<u8> {
    if key == wire::key("sweeping_edge") {
        wire::key("sweeping")
    } else {
        key
    }
}

/// The name that clients of a release know an enchantment by, if they know it.
pub open spec fn legacy_enchantment(key: Seq<u8>, version: Version) -> Option<Seq<u8>> {
    if enchantment_known(old_enchantment_name(key), version) {
        Some(old_enchantment_name(key))
    } else {
        None
    }
}

pub fn legacy_enchantment_name(key: &[u8], version: Version) -> (res: Option<&[u8]>)
    ensures
        catalog::same_text(res, legacy_enchantment(key@, version)),
{
    let name: &[u8] = if wire::same_bytes(key, "sweeping_edge".as_bytes()) {
        "sweeping".as_bytes()
    } else {
        key
    };
    if enchantment_exists_on(name, version) {
        Some(name)
    } else {
        None
    }
}

/// The enchantment id behind a name that a client wrote.
pub open spec fn enchantment_id(cat: &Catalog, name: Seq<u8>) -> Option<i32> {
    let bare = text::bare(name);
    catalog::index_of(
        cat.enchantments@,
        if bare == wire::key("sweeping") {
            wire::key("sweeping_edge")
        } else {
            bare
        },
    )
}

pub fn native_enchantment(cat: &Catalog, name: &[u8]) -> (res: Option<i32>)
    ensures
        res == enchantment_id(cat, name@),
{
    let bare: &[u8] = text::bare_name(name);
    if wire::same_bytes(bare, "sweeping".as_bytes()) {
        catalog::find_name(&cat.enchantments, "sweeping_edge".as_bytes())
    } else {
        catalog::find_name(&cat.enchantments, bare)
    }
}

/// An enchantment that a client is told by its name comes back as itself, where the
/// table has no name twice and does not have the old name of the renamed one.
pub proof fn enchantment_names_lead_back(cat: &Catalog, id: i32, version: Version)
    requires
        0 <= id < cat.enchantments@.len(),
        catalog::are_told_apart(cat.enchantments@),
        cat.enchantments@[id as int]@ != wire::key("sweeping"),
        legacy_enchantment(cat.enchantments@[id as int]@, version) is Some,
    ensures
        enchantment_id(
            cat,
            text::namespaced(legacy_enchantment(cat.enchantments@[id as int]@, version).unwrap()),
        ) == Some(id),
{
    let old = legacy_enchantment(cat.enchantments@[id as int]@, version).unwrap();
    let prefix = wire::key("minecraft:");
    assert(prefix.is_prefix_of(prefix + old)) by {
        assert((prefix + old).take(prefix.len() as int) =~= prefix);
    }
    assert((prefix + old).skip(prefix.len() as int) =~= old);
    catalog::names_lead_back(cat.enchantments@, id);
}

/// What an enchantment id is called; ids are one byte wide.
pub open spec fn enchantment_key(cat: &Catalog, id: i32) -> Option<Seq<u8>> {
    if id > 255 {
        None
    } else {
        catalog::name_at(cat.enchantments@, id)
    }
}

fn find_enchantment(cat: &Catalog, id: i32) -> (res: Option<&[u8]>)
    ensures
        catalog::same_text(res, enchantment_key(cat, id)),
{
    if id > 255 {
        None
    } else {
        catalog::get_name(&cat.enchantments, id)
    }
}

/// An object of two strings as JSON, each behind its key.
pub uninterp spec fn json_pair(first: Seq<u8>, value: Seq<u8>, second: Seq<u8>, other: Seq<u8>) -> Seq<u8>;

/// The compact JSON that `serde_json` gives for an object of two strings. Nothing more
/// is said of the bytes than that the keys and the strings fix them.
#[verifier::external_body]
fn pair_json(first: &[u8], value: &[u8], second: &[u8], other: &[u8]) -> (res: Vec<u8>)
    ensures
        res@ == json_pair(first@, value@, second@, other@),
{
    let mut object = serde_json::Map::new();
    object.insert(String::from_utf8_lossy(first).into(), String::from_utf8_lossy(value).into());
    object.insert(String::from_utf8_lossy(second).into(), String::from_utf8_lossy(other).into());
    serde_json::Value::Object(object).to_string().into_bytes()
}

/// The text of a tooltip line as JSON: an object with the text and its color.
pub open spec fn json_text(text: Seq<u8>, color: Seq<u8>) -> Seq<u8> {
    json_pair(wire::key("text"), text, wire::key("color"), color)
}

pub(crate) fn colored_json(text: &[u8], color: &[u8]) -> (res: Vec<u8>)
    ensures
        res@ == json_text(text@, color@),
{
    pair_json("text".as_bytes(), text, "color".as_bytes(), color)
}

/// A level in a tooltip: in Roman numerals up to ten.
pub open spec fn level_text(level: i32) -> Seq<u8> {
    if level == 1 {
        wire::key("I")
    } else if level == 2 {
        wire::key("II")
    } else if level == 3 {
        wire::key("III")
    } else if level == 4 {
        wire::key("IV")
    } else if level == 5 {
        wire::key("V")
    } else if level == 6 {
        wire::key("VI")
    } else if level == 7 {
        wire::key("VII")
    } else if level == 8 {
        wire::key("VIII")
    } else if level == 9 {
        wire::key("IX")
    } else if level == 10 {
        wire::key("X")
    } else {
        text::decimal(level as int)
    }
}

/// The tooltip line of an enchantment: gray JSON from 1.14, plain text before.
pub open spec fn enchantment_line(name: Seq<u8>, level: i32, version: Version) -> Seq<u8> {
    let line = name + wire::key(" ") + level_text(level);
    if version >= version::V_1_14 {
        json_text(line, wire::key("gray"))
    } else {
        line
    }
}

fn push_level(out: &mut Vec<u8>, level: i32)
    ensures
        final(out)@ == old(out)@ + level_text(level),
{
    if level == 1 {
        wire::write_bytes(out, "I".as_bytes());
    } else if level == 2 {
        wire::write_bytes(out, "II".as_bytes());
    } else if level == 3 {
        wire::write_bytes(out, "III".as_bytes());
    } else if level == 4 {
        wire::write_bytes(out, "IV".as_bytes());
    } else if level == 5 {
        wire::write_bytes(out, "V".as_bytes());
    } else if level == 6 {
        wire::write_bytes(out, "VI".as_bytes());
    } else if level == 7 {
        wire::write_bytes(out, "VII".as_bytes());
    } else if level == 8 {
        wire::write_bytes(out, "VIII".as_bytes());
    } else if level == 9 {
        wire::write_bytes(out, "IX".as_bytes());
    } else if level == 10 {
        wire::write_bytes(out, "X".as_bytes());
    } else {
        text::write_decimal(out, level);
    }
}

pub fn enchantment_lore_line(name: &[u8], level: i32, version: Version) -> (res: Vec<u8>)
    ensures
        res@ == enchantment_line(name@, level, version),
{
    let mut line: Vec<u8> = text::concat(name, " ".as_bytes());
    push_level(&mut line, level);
    if version >= version::V_1_14 {
        colored_json(line.as_slice(), "gray".as_bytes())
    } else {
        line
    }
}

pub open spec fn tooltip_name_from(names: Seq<(u32, Vec<u8>)>, id: u32, i: int) -> Option<Seq<u8>>
    decreases names.len() - i,
{
    if i < 0 || i >= names.len() {
        None
    } else if names[i].0 == id {
        Some(names[i].1@)
    } else {
        tooltip_name_from(names, id, i + 1)
    }
}

/// What an enchantment is called in a tooltip, by way of its id in 1.20.5.
pub open spec fn tooltip_name(cat: &Catalog, id: i32) -> Option<Seq<u8>> {
    if id < 0 {
        None
    } else {
        match mapping::target_of(cat.enchantments_1_20_5@, id as u32) {
            Some(static_id) => tooltip_name_from(cat.enchantment_names@, static_id, 0),
            None => None,
        }
    }
}

#[verifier::loop_isolation(false)]
fn find_tooltip_name(cat: &Catalog, id: i32) -> (res: Option<&[u8]>)
    ensures
        catalog::same_text(res, tooltip_name(cat, id)),
{
    if id < 0 {
        return None;
    }
    let static_id: u32 = match cat.enchantments_1_20_5.map(id as u32) {
        Some(static_id) => static_id,
        None => {
            return None;
        },
    };
    let mut i: usize = 0;
    while i < cat.enchantment_names.len()
        invariant
            i <= cat.enchantment_names.len(),
            tooltip_name_from(cat.enchantment_names@, static_id, 0) == tooltip_name_from(
                cat.enchantment_names@,
                static_id,
                i as int,
            ),
        decreases cat.enchantment_names.len() - i,
    {
        if cat.enchantment_names[i].0 == static_id {
            return Some(cat.enchantment_names[i].1.as_slice());
        }
        i = i + 1;
    }
    None
}

/// A level in the short field of the old form.
pub open spec fn clamped_level(level: i32) -> u16 {
    if level < 0 {
        0
    } else if level > 0x7fff {
        0x7fff
    } else {
        level as u16
    }
}

pub open spec fn enchantment_tag(name: Seq<u8>, level: i32) -> Tag {
    nbt::compound_tag(
        nbt::put(
            nbt::put(seq![], wire::key("id"), nbt::string_tag(text::namespaced(name))),
            wire::key("lvl"),
            nbt::short_tag(clamped_level(level)),
        ),
    )
}

/// The enchantments of a list that clients of a release know, as tags, and
/// tooltip lines for those that they do not.
pub open spec fn enchantments_split(
    pairs: Seq<(i32, i32)>,
    i: int,
    tags: Seq<Tag>,
    lore: Seq<Tag>,
    version: Version,
    cat: &Catalog,
) -> (Seq<Tag>, Seq<Tag>)
    decreases pairs.len() - i,
{
    if i < 0 || i >= pairs.len() {
        (tags, lore)
    } else {
        let (id, level) = pairs[i];
        match enchantment_key(cat, id) {
            Some(key) => match legacy_enchantment(key, version) {
                Some(name) => enchantments_split(
                    pairs,
                    i + 1,
                    tags.push(enchantment_tag(name, level)),
                    lore,
                    version,
                    cat,
                ),
                None => match tooltip_name(cat, id) {
                    Some(name) => if version < version::V_1_20_5 {
                        enchantments_split(
                            pairs,
                            i + 1,
                            tags,
                            lore.push(nbt::string_tag(enchantment_line(name, level, version))),
                            version,
                            cat,
                        )
                    } else {
                        enchantments_split(pairs, i + 1, tags, lore, version, cat)
                    },
                    None => enchantments_split(pairs, i + 1, tags, lore, version, cat),
                },
            },
            None => enchantments_split(pairs, i + 1, tags, lore, version, cat),
        }
    }
}

fn new_enchantment_tag(name: &[u8], level: i32) -> (res: NbtTag)
    ensures
        res@ == enchantment_tag(name@, level),
{
    let mut entry: NbtCompound = NbtCompound::new();
    entry.put_string("id".as_bytes(), text::with_namespace(name).as_slice());
    let level: u16 = if level < 0 {
        0
    } else if level > 0x7fff {
        0x7fff
    } else {
        level as u16
    };
    entry.put("lvl".as_bytes(), nbt::new_short_tag(level));
    entry.to_tag()
}

#[verifier::loop_isolation(false)]
pub fn legacy_enchantment_list(
    pairs: &Vec<(i32, i32)>,
    version: Version,
    lore: &mut Vec<NbtTag>,
    cat: &Catalog,
) -> (res: Vec<NbtTag>)
    ensures
        (nbt::tag_views(res@), nbt::tag_views(final(lore)@)) == enchantments_split(
            pairs@,
            0,
            seq![],
            nbt::tag_views(old(lore)@),
            version,
            cat,
        ),
{
    let mut tags: Vec<NbtTag> = Vec::new();
    let mut i: usize = 0;
    assert(nbt::tag_views(tags@) =~= seq![]);
    while i < pairs.len()
        invariant
            i <= pairs.len(),
            enchantments_split(pairs@, 0, seq![], nbt::tag_views(old(lore)@), version, cat)
                == enchantments_split(
                pairs@,
                i as int,
                nbt::tag_views(tags@),
                nbt::tag_views(lore@),
                version,
                cat,
            ),
        decreases pairs.len() - i,
    {
        let id: i32 = pairs[i].0;
        let level: i32 = pairs[i].1;
        let ghost tags_before = nbt::tag_views(tags@);
        let ghost lore_before = nbt::tag_views(lore@);
        if let Some(key) = find_enchantment(cat, id) {
            if let Some(name) = legacy_enchantment_name(key, version) {
                let tag: NbtTag = new_enchantment_tag(name, level);
                let ghost view = tag@;
                tags.push(tag);
                assert(nbt::tag_views(tags@) =~= tags_before.push(view));
            } else if version < version::V_1_20_5 {
                if let Some(name) = find_tooltip_name(cat, id) {
                    let tag: NbtTag = nbt::new_string_tag(
                        enchantment_lore_line(name, level, version).as_slice(),
                    );
                    let ghost view = tag@;
                    lore.push(tag);
                    assert(nbt::tag_views(lore@) =~= lore_before.push(view));
                }
            }
        }
        i = i + 1;
    }
    tags
}

/// Pairs of numbers with their count in front; a negative count is none.
pub open spec fn take_pairs(pairs: Seq<(i32, i32)>, n: nat, s: Seq<u8>) -> Option<Seq<(i32, i32)>>
    decreases n,
{
    if n == 0 {
        Some(pairs)
    } else {
        match wire::take_var_int(s) {
            Some((a, t)) => match wire::take_var_int(t) {
                Some((b, rest)) => take_pairs(pairs.push((a, b)), (n - 1) as nat, rest),
                None => None,
            },
            None => None,
        }
    }
}

pub open spec fn pairs_of(data: Seq<u8>) -> Option<Seq<(i32, i32)>> {
    match wire::take_var_int(data) {
        Some((n, s)) => take_pairs(seq![], shape::times(n), s),
        None => None,
    }
}

#[verifier::loop_isolation(false)]
pub fn var_int_pairs(data: &[u8]) -> (res: Option<Vec<(i32, i32)>>)
    ensures
        match pairs_of(data@) {
            Some(pairs) => res is Some && res->0@ == pairs,
            None => res is None,
        },
{
    let mut r: &[u8] = data;
    let n: i32 = match wire::get_var_int(&mut r) {
        Ok(n) => n,
        Err(_) => {
            return None;
        },
    };
    let ghost start = r@;
    let mut pairs: Vec<(i32, i32)> = Vec::new();
    let mut left: u32 = if n < 0 { 0 } else { n as u32 };
    while left > 0
        invariant
            take_pairs(seq![], shape::times(n), start) == take_pairs(pairs@, left as nat, r@),
        decreases left,
    {
        let a: i32 = match wire::get_var_int(&mut r) {
            Ok(a) => a,
            Err(_) => {
                return None;
            },
        };
        let b: i32 = match wire::get_var_int(&mut r) {
            Ok(b) => b,
            Err(_) => {
                return None;
            },
        };
        pairs.push((a, b));
        left = left - 1;
    }
    Some(pairs)
}

/// The list of enchantments that a client's tags stand for; a tag without a
/// level has level one.
pub open spec fn enchantments_from(tags: Seq<Tag>, i: int, pairs: Seq<(i32, i32)>, cat: &Catalog) -> Seq<
    (i32, i32),
>
    decreases tags.len() - i,
{
    if i < 0 || i >= tags.len() {
        pairs
    } else {
        match enchantment_from(tags[i], cat) {
            Some(pair) => enchantments_from(tags, i + 1, pairs.push(pair), cat),
            None => enchantments_from(tags, i + 1, pairs, cat),
        }
    }
}

pub open spec fn enchantment_from(tag: Tag, cat: &Catalog) -> Option<(i32, i32)> {
    match nbt::compound_of(tag) {
        Some(c) => match nbt::string_in(c, wire::key("id")) {
            Some(name) => match enchantment_id(cat, name) {
                Some(id) => Some(
                    (
                        id,
                        match nbt::number_in(c, wire::key("lvl")) {
                            Some(level) => level,
                            None => 1i32,
                        },
                    ),
                ),
                None => None,
            },
            None => None,
        },
        None => None,
    }
}

fn read_enchantment(tag: &NbtTag, cat: &Catalog) -> (res: Option<(i32, i32)>)
    ensures
        res == enchantment_from(tag@, cat),
{
    match tag.extract_compound() {
        Some(c) => match c.get_string("id".as_bytes()) {
            Some(name) => match native_enchantment(cat, name.as_slice()) {
                Some(id) => Some(
                    (
                        id,
                        match c.get_number("lvl".as_bytes()) {
                            Some(level) => level,
                            None => 1,
                        },
                    ),
                ),
                None => None,
            },
            None => None,
        },
        None => None,
    }
}

#[verifier::loop_isolation(false)]
pub fn native_enchantment_list(tags: &Vec<NbtTag>, cat: &Catalog) -> (res: Vec<(i32, i32)>)
    ensures
        res@ == enchantments_from(nbt::tag_views(tags@), 0, seq![], cat),
{
    let mut pairs: Vec<(i32, i32)> = Vec::new();
    let mut i: usize = 0;
    while i < tags.len()
        invariant
            i <= tags.len(),
            enchantments_from(nbt::tag_views(tags@), 0, seq![], cat) == enchantments_from(
                nbt::tag_views(tags@),
                i as int,
                pairs@,
                cat,
            ),
        decreases tags.len() - i,
    {
        if let Some(pair) = read_enchantment(&tags[i], cat) {
            pairs.push(pair);
        }
        i = i + 1;
    }
    pairs
}

/// A registry key as a title: its words apart, each with a capital.
pub open spec fn titled(key: Seq<u8>) -> Seq<u8> {
    Seq::new(
        key.len(),
        |i: int|
            if key[i] == 95 {
                32u8
            } else if (i == 0 || key[i - 1] == 95) && 97 <= key[i] <= 122 {
                (key[i] - 32) as u8
            } else {
                key[i]
            },
    )
}

fn title(key: &[u8]) -> (res: Vec<u8>)
    ensures
        res@ == titled(key@),
{
    let mut out: Vec<u8> = Vec::new();
    let mut i: usize = 0;
    while i < key.len()
        invariant
            i <= key.len(),
            out@.len() == i,
            forall|j: int| 0 <= j < i ==> out@[j] == titled(key@)[j],
        decreases key.len() - i,
    {
        let c: u8 = key[i];
        let starts: bool = i == 0 || key[i - 1] == 95;
        if c == 95 {
            out.push(32);
        } else if starts && 97 <= c && c <= 122 {
            out.push(c - 32);
        } else {
            out.push(c);
        }
        i = i + 1;
    }
    assert(out@ =~= titled(key@));
    out
}

/// The tooltip line of an enchantment that a structured client has no id for.
pub open spec fn missing_line(id: i32, level: i32, to: &Target) -> Option<Seq<u8>> {
    if id < 0 || mapping::target_of(to.ids.enchantments@, id as u32) is Some {
        None
    } else {
        match enchantment_key(to.cat, id) {
            Some(key) => Some(enchantment_line(titled(text::bare(key)), level, to.version)),
            None => None,
        }
    }
}

pub open spec fn missing_lines(pairs: Seq<(i32, i32)>, i: int, lines: Seq<Seq<u8>>, to: &Target) -> Seq<Seq<u8>>
    decreases pairs.len() - i,
{
    if i < 0 || i >= pairs.len() {
        lines
    } else {
        match missing_line(pairs[i].0, pairs[i].1, to) {
            Some(line) => missing_lines(pairs, i + 1, lines.push(line), to),
            None => missing_lines(pairs, i + 1, lines, to),
        }
    }
}

/// The tooltip lines for the enchantments of a payload that a structured client
/// has no id for.
pub open spec fn unsupported_lines(data: Seq<u8>, lines: Seq<Seq<u8>>, to: &Target) -> Seq<Seq<u8>> {
    if to.version < version::V_1_20_5 {
        lines
    } else {
        match pairs_of(data) {
            Some(pairs) => missing_lines(pairs, 0, lines, to),
            None => lines,
        }
    }
}

pub open spec fn text_views(texts: Seq<Vec<u8>>) -> Seq<Seq<u8>> {
    Seq::new(texts.len(), |i: int| texts[i]@)
}

/// Adds the tooltip lines for the enchantments that the client has no id for.
#[verifier::loop_isolation(false)]
pub fn unsupported_enchantment_lore(data: &[u8], lines: &mut Vec<Vec<u8>>, to: &Target)
    ensures
        text_views(final(lines)@) == unsupported_lines(data@, text_views(old(lines)@), to),
{
    if to.version < version::V_1_20_5 {
        return;
    }
    let pairs: Vec<(i32, i32)> = match var_int_pairs(data) {
        Some(pairs) => pairs,
        None => {
            return;
        },
    };
    let mut i: usize = 0;
    while i < pairs.len()
        invariant
            i <= pairs.len(),
            missing_lines(pairs@, 0, text_views(old(lines)@), to) == missing_lines(
                pairs@,
                i as int,
                text_views(lines@),
                to,
            ),
        decreases pairs.len() - i,
    {
        let id: i32 = pairs[i].0;
        let level: i32 = pairs[i].1;
        let ghost before = text_views(lines@);
        if id >= 0 {
            if to.ids.enchantments.map(id as u32).is_none() {
                if let Some(key) = find_enchantment(to.cat, id) {
                    let name: Vec<u8> = title(text::bare_name(key));
                    let line: Vec<u8> = enchantment_lore_line(name.as_slice(), level, to.version);
                    let ghost view = line@;
                    lines.push(line);
                    assert(text_views(lines@) =~= before.push(view));
                }
            }
        }
        i = i + 1;
    }
}

/// `n` tags on their own, put behind `tags`; each must be there.
pub open spec fn take_lines(tags: Seq<Tag>, n: nat, s: Seq<u8>) -> Option<(Seq<Tag>, Seq<u8>)>
    decreases n,
{
    if n == 0 {
        Some((tags, s))
    } else {
        match nbt::take_nbt(s, false) {
            Some((Some(tag), rest)) => take_lines(tags.push(tag), (n - 1) as nat, rest),
            _ => None,
        }
    }
}

/// The lines of a lore payload.
pub open spec fn lore_lines(data: Seq<u8>) -> Option<Seq<Tag>> {
    match wire::take_var_int(data) {
        Some((n, s)) => if n < 0 || n > item_component::MAX_ENTRIES {
            None
        } else {
            match take_lines(seq![], n as nat, s) {
                Some((tags, rest)) => if rest.len() == 0 {
                    Some(tags)
                } else {
                    None
                },
                None => None,
            }
        },
        None => None,
    }
}

pub open spec fn enc_text_lines(lines: Seq<Seq<u8>>) -> Seq<u8>
    decreases lines.len(),
{
    if lines.len() == 0 {
        seq![]
    } else {
        enc_text_lines(lines.drop_last()) + nbt::enc_nbt(Some(nbt::string_tag(lines.last())), false)
    }
}

pub open spec fn enc_tag_lines(tags: Seq<Tag>) -> Seq<u8>
    decreases tags.len(),
{
    if tags.len() == 0 {
        seq![]
    } else {
        enc_tag_lines(tags.drop_last()) + nbt::enc_nbt(Some(tags.last()), false)
    }
}

/// A lore payload with lines put before those it has; nothing where it cannot
/// be read.
pub open spec fn lore_extended(existing: Option<Seq<u8>>, lines: Seq<Seq<u8>>) -> Option<Seq<u8>> {
    if lines.len() == 0 {
        existing
    } else {
        let old_lines = match existing {
            Some(data) => lore_lines(data),
            None => Some(seq![]),
        };
        match old_lines {
            Some(tags) => if lines.len() + tags.len() <= i32::MAX {
                Some(
                    wire::enc_var_int((lines.len() + tags.len()) as i32) + enc_text_lines(lines) + enc_tag_lines(
                        tags,
                    ),
                )
            } else {
                None
            },
            None => None,
        }
    }
}

#[verifier::loop_isolation(false)]
fn read_lore_lines(data: &[u8]) -> (res: Option<Vec<NbtTag>>)
    ensures
        nbt::tags_opt(res) == lore_lines(data@),
{
    let mut r: &[u8] = data;
    let n: i32 = match wire::get_var_int(&mut r) {
        Ok(n) => n,
        Err(_) => {
            return None;
        },
    };
    if n < 0 || n > item_component::MAX_ENTRIES {
        return None;
    }
    let ghost start = r@;
    let mut tags: Vec<NbtTag> = Vec::new();
    let mut left: i32 = n;
    assert(nbt::tag_views(tags@) =~= seq![]);
    while left > 0
        invariant
            0 <= left <= n,
            take_lines(seq![], n as nat, start) == take_lines(nbt::tag_views(tags@), left as nat, r@),
        decreases left,
    {
        let ghost before = nbt::tag_views(tags@);
        match nbt::get_nbt(&mut r, false) {
            Ok(Some(tag)) => {
                let ghost view = tag@;
                tags.push(tag);
                assert(nbt::tag_views(tags@) =~= before.push(view));
            },
            _ => {
                return None;
            },
        }
        left = left - 1;
    }
    if r.len() != 0 {
        return None;
    }
    Some(tags)
}

/// Puts tooltip lines before those of a lore payload.
#[verifier::loop_isolation(false)]
pub fn append_enchantment_lore(existing: Option<&[u8]>, lines: &Vec<Vec<u8>>) -> (res: Option<Vec<u8>>)
    ensures
        item_component::same_option(
            res,
            lore_extended(
                match existing {
                    Some(data) => Some(data@),
                    None => None,
                },
                text_views(lines@),
            ),
        ),
{
    if lines.len() == 0 {
        return match existing {
            Some(data) => Some(slice_to_vec(data)),
            None => None,
        };
    }
    let tags: Vec<NbtTag> = match existing {
        Some(data) => match read_lore_lines(data) {
            Some(tags) => tags,
            None => {
                return None;
            },
        },
        None => {
            let tags: Vec<NbtTag> = Vec::new();
            assert(nbt::tag_views(tags@) =~= seq![]);
            tags
        },
    };
    if lines.len() as u128 + tags.len() as u128 > 0x7fff_ffff {
        return None;
    }
    let mut out: Vec<u8> = wire::var_int_bytes((lines.len() + tags.len()) as i32);
    let ghost head = out@;
    let ghost texts = text_views(lines@);
    let ghost views = nbt::tag_views(tags@);
    let mut i: usize = 0;
    assert(texts.take(0) =~= seq![]);
    assert(out@ =~= head + enc_text_lines(texts.take(0)));
    while i < lines.len()
        invariant
            i <= lines.len(),
            out@ == head + enc_text_lines(texts.take(i as int)),
        decreases lines.len() - i,
    {
        nbt::write_nbt(&mut out, &nbt::new_string_tag(lines[i].as_slice()), false);
        proof {
            let next = texts.take(i + 1);
            assert(next.drop_last() =~= texts.take(i as int));
            assert(out@ =~= head + enc_text_lines(next));
        }
        i = i + 1;
    }
    assert(texts.take(texts.len() as int) =~= texts);
    let ghost body = out@;
    let mut j: usize = 0;
    assert(views.take(0) =~= seq![]);
    assert(out@ =~= body + enc_tag_lines(views.take(0)));
    while j < tags.len()
        invariant
            j <= tags.len(),
            out@ == body + enc_tag_lines(views.take(j as int)),
        decreases tags.len() - j,
    {
        nbt::write_nbt(&mut out, &tags[j], false);
        proof {
            let next = views.take(j + 1);
            assert(next.drop_last() =~= views.take(j as int));
            assert(out@ =~= body + enc_tag_lines(next));
        }
        j = j + 1;
    }
    assert(views.take(views.len() as int) =~= views);
    Some(out)
}


// --- attribute modifiers ---------------------------------------------------------------------

/// The name, with its category, that an attribute had in a release before
/// 1.20.5. The one that is not there for the whole range arrives in 1.20.2.
pub open spec fn old_attribute_name(name: Seq<u8>, version: Version) -> Option<Seq<u8>> {
    if name == wire::key("max_absorption") {
        if version >= version::V_1_20_2 {
            Some(wire::key("generic.max_absorption"))
        } else {
            None
        }
    } else if name == wire::key("armor") {
        Some(wire::key("generic.armor"))
    } else if name == wire::key("armor_toughness") {
        Some(wire::key("generic.armor_toughness"))
    } else if name == wire::key("attack_damage") {
        Some(wire::key("generic.attack_damage"))
    } else if name == wire::key("attack_knockback") {
        Some(wire::key("generic.attack_knockback"))
    } else if name == wire::key("attack_speed") {
        Some(wire::key("generic.attack_speed"))
    } else if name == wire::key("flying_speed") {
        Some(wire::key("generic.flying_speed"))
    } else if name == wire::key("follow_range") {
        Some(wire::key("generic.follow_range"))
    } else if name == wire::key("knockback_resistance") {
        Some(wire::key("generic.knockback_resistance"))
    } else if name == wire::key("luck") {
        Some(wire::key("generic.luck"))
    } else if name == wire::key("max_health") {
        Some(wire::key("generic.max_health"))
    } else if name == wire::key("movement_speed") {
        Some(wire::key("generic.movement_speed"))
    } else if name == wire::key("jump_strength") {
        Some(wire::key("horse.jump_strength"))
    } else if name == wire::key("spawn_reinforcements") {
        Some(wire::key("zombie.spawn_reinforcements"))
    } else {
        None
    }
}

/// The name that an attribute id, one byte wide, had in a release.
pub open spec fn legacy_attribute(cat: &Catalog, id: i32, version: Version) -> Option<Seq<u8>> {
    if id > 255 {
        None
    } else {
        match catalog::name_at(cat.attributes@, id) {
            Some(name) => old_attribute_name(name, version),
            None => None,
        }
    }
}

pub open spec fn same_key(found: Option<&'static str>, wanted: Option<Seq<u8>>) -> bool {
    match found {
        Some(name) => wanted == Some(wire::key(name)),
        None => wanted is None,
    }
}

fn rename_attribute(name: &[u8], version: Version) -> (res: Option<&'static str>)
    ensures
        same_key(res, old_attribute_name(name@, version)),
{
    if wire::same_bytes(name, "max_absorption".as_bytes()) {
        if version >= version::V_1_20_2 {
            Some("generic.max_absorption")
        } else {
            None
        }
    } else if wire::same_bytes(name, "armor".as_bytes()) {
        Some("generic.armor")
    } else if wire::same_bytes(name, "armor_toughness".as_bytes()) {
        Some("generic.armor_toughness")
    } else if wire::same_bytes(name, "attack_damage".as_bytes()) {
        Some("generic.attack_damage")
    } else if wire::same_bytes(name, "attack_knockback".as_bytes()) {
        Some("generic.attack_knockback")
    } else if wire::same_bytes(name, "attack_speed".as_bytes()) {
        Some("generic.attack_speed")
    } else if wire::same_bytes(name, "flying_speed".as_bytes()) {
        Some("generic.flying_speed")
    } else if wire::same_bytes(name, "follow_range".as_bytes()) {
        Some("generic.follow_range")
    } else if wire::same_bytes(name, "knockback_resistance".as_bytes()) {
        Some("generic.knockback_resistance")
    } else if wire::same_bytes(name, "luck".as_bytes()) {
        Some("generic.luck")
    } else if wire::same_bytes(name, "max_health".as_bytes()) {
        Some("generic.max_health")
    } else if wire::same_bytes(name, "movement_speed".as_bytes()) {
        Some("generic.movement_speed")
    } else if wire::same_bytes(name, "jump_strength".as_bytes()) {
        Some("horse.jump_strength")
    } else if wire::same_bytes(name, "spawn_reinforcements".as_bytes()) {
        Some("zombie.spawn_reinforcements")
    } else {
        None
    }
}

pub fn legacy_attribute_name(cat: &Catalog, id: i32, version: Version) -> (res: Option<&'static str>)
    ensures
        same_key(res, legacy_attribute(cat, id, version)),
{
    if id > 255 {
        return None;
    }
    match catalog::get_name(&cat.attributes, id) {
        Some(name) => rename_attribute(name, version),
        None => None,
    }
}

/// Where a modifier counts: everywhere, or in one of the six slots that clients
/// before 1.20.5 have.
pub enum LegacySlot {
    Everywhere,
    Named(&'static str),
}

/// The old spelling of a slot; a group of slots has none.
pub open spec fn slot_name(slot: i32) -> Option<Option<Seq<u8>>> {
    if slot == 0 {
        Some(None)
    } else if slot == 1 {
        Some(Some(wire::key("mainhand")))
    } else if slot == 2 {
        Some(Some(wire::key("offhand")))
    } else if slot == 4 {
        Some(Some(wire::key("feet")))
    } else if slot == 5 {
        Some(Some(wire::key("legs")))
    } else if slot == 6 {
        Some(Some(wire::key("chest")))
    } else if slot == 7 {
        Some(Some(wire::key("head")))
    } else {
        None
    }
}

pub fn legacy_slot(slot: i32) -> (res: Option<LegacySlot>)
    ensures
        slot_name(slot) == match res {
            Some(LegacySlot::Everywhere) => Some(None::<Seq<u8>>),
            Some(LegacySlot::Named(name)) => Some(Some(wire::key(name))),
            None => None,
        },
{
    match slot {
        0 => Some(LegacySlot::Everywhere),
        1 => Some(LegacySlot::Named("mainhand")),
        2 => Some(LegacySlot::Named("offhand")),
        4 => Some(LegacySlot::Named("feet")),
        5 => Some(LegacySlot::Named("legs")),
        6 => Some(LegacySlot::Named("chest")),
        7 => Some(LegacySlot::Named("head")),
        _ => None,
    }
}

/// One entry of a modifier list; the amount is the bits of a double.
pub struct Modifier {
    pub attribute: i32,
    pub id: Vec<u8>,
    pub amount: u64,
    pub operation: i32,
    pub slot: i32,
}

/// The mathematical form of a modifier.
#[verifier::ext_equal]
pub struct ModifierView {
    pub attribute: i32,
    pub id: Seq<u8>,
    pub amount: u64,
    pub operation: i32,
    pub slot: i32,
}

impl View for Modifier {
    type V = ModifierView;

    open spec fn view(&self) -> ModifierView {
        ModifierView {
            attribute: self.attribute,
            id: self.id@,
            amount: self.amount,
            operation: self.operation,
            slot: self.slot,
        }
    }
}

#[verifier::opaque]
pub open spec fn take_modifier(s: Seq<u8>) -> Option<(ModifierView, Seq<u8>)> {
    match wire::take_var_int(s) {
        Some((attribute, s1)) => match wire::take_str(s1) {
            Some((id, s2)) => match wire::take_u64(s2) {
                Some((amount, s3)) => match wire::take_var_int(s3) {
                    Some((operation, s4)) => match wire::take_var_int(s4) {
                        Some((slot, s5)) => match wire::take_var_int(s5) {
                            Some((display, s6)) => {
                                let rest = if display == 2 {
                                    shape::drop_nbt(s6, version::V_26_2)
                                } else {
                                    Some(s6)
                                };
                                match rest {
                                    Some(rest) => Some(
                                        (ModifierView { attribute, id, amount, operation, slot }, rest),
                                    ),
                                    None => None,
                                }
                            },
                            None => None,
                        },
                        None => None,
                    },
                    None => None,
                },
                None => None,
            },
            None => None,
        },
        None => None,
    }
}

pub open spec fn take_modifiers(modifiers: Seq<ModifierView>, n: nat, s: Seq<u8>) -> Option<Seq<ModifierView>>
    decreases n,
{
    if n == 0 {
        Some(modifiers)
    } else {
        match take_modifier(s) {
            Some((modifier, rest)) => take_modifiers(modifiers.push(modifier), (n - 1) as nat, rest),
            None => None,
        }
    }
}

/// The modifiers of a payload; none where it cannot be read.
pub open spec fn modifiers_of(data: Seq<u8>) -> Seq<ModifierView> {
    match wire::take_var_int(data) {
        Some((n, s)) => match take_modifiers(seq![], shape::times(n), s) {
            Some(modifiers) => modifiers,
            None => seq![],
        },
        None => seq![],
    }
}

pub open spec fn modifier_views(modifiers: Seq<Modifier>) -> Seq<ModifierView> {
    Seq::new(modifiers.len(), |i: int| modifiers[i]@)
}

fn read_modifier(r: &mut &[u8]) -> (res: Result<Modifier, ReadingError>)
    ensures
        match take_modifier(old(r)@) {
            Some((modifier, rest)) => res is Ok && res->Ok_0@ == modifier && final(r)@ == rest,
            None => res is Err,
        },
{
    proof {
        reveal(take_modifier);
    }
    let attribute: i32 = wire::get_var_int(r)?;
    let id: &[u8] = wire::get_str(r)?;
    let amount: u64 = wire::get_u64(r)?;
    let operation: i32 = wire::get_var_int(r)?;
    let slot: i32 = wire::get_var_int(r)?;
    let display: i32 = wire::get_var_int(r)?;
    if display == 2 {
        shape::skip_nbt(r, version::V_26_2)?;
    }
    Ok(Modifier { attribute, id: slice_to_vec(id), amount, operation, slot })
}

#[verifier::loop_isolation(false)]
pub fn read_modifiers(data: &[u8]) -> (res: Vec<Modifier>)
    ensures
        modifier_views(res@) == modifiers_of(data@),
{
    let mut r: &[u8] = data;
    let mut modifiers: Vec<Modifier> = Vec::new();
    assert(modifier_views(modifiers@) =~= seq![]);
    let n: i32 = match wire::get_var_int(&mut r) {
        Ok(n) => n,
        Err(_) => {
            return modifiers;
        },
    };
    let ghost start = r@;
    let mut left: u32 = if n < 0 { 0 } else { n as u32 };
    while left > 0
        invariant
            take_modifiers(seq![], shape::times(n), start) == take_modifiers(
                modifier_views(modifiers@),
                left as nat,
                r@,
            ),
        decreases left,
    {
        let ghost before = modifier_views(modifiers@);
        match read_modifier(&mut r) {
            Ok(modifier) => {
                let ghost view = modifier@;
                modifiers.push(modifier);
                assert(modifier_views(modifiers@) =~= before.push(view));
            },
            Err(_) => {
                let none: Vec<Modifier> = Vec::new();
                assert(modifier_views(none@) =~= seq![]);
                return none;
            },
        }
        left = left - 1;
    }
    modifiers
}

/// The identifier of a modifier as tags: an int array from 1.16, two longs
/// before.
pub open spec fn with_modifier_uuid(c: Seq<Entry>, id: Seq<u8>, index: i32, version: Version) -> Seq<Entry> {
    let (high, low) = item_component::modifier_uuid(id, index);
    if version >= version::V_1_16 {
        nbt::put(
            c,
            wire::key("UUID"),
            nbt::four_words_tag(
                wire::i32_of_bits((high / 0x1_0000_0000) as u32),
                wire::i32_of_bits((high % 0x1_0000_0000) as u32),
                wire::i32_of_bits((low / 0x1_0000_0000) as u32),
                wire::i32_of_bits((low % 0x1_0000_0000) as u32),
            ),
        )
    } else {
        nbt::put(
            nbt::put(c, wire::key("UUIDMost"), nbt::long_tag(high)),
            wire::key("UUIDLeast"),
            nbt::long_tag(low),
        )
    }
}

/// A modifier in the old form; nothing where the release has no name for its
/// attribute, its slot or its operation.
pub open spec fn attribute_entry(m: ModifierView, index: i32, version: Version, cat: &Catalog) -> Option<Seq<Entry>> {
    match legacy_attribute(cat, m.attribute, version) {
        Some(name) => match slot_name(m.slot) {
            Some(slot) => if m.operation < 0 || m.operation > 2 {
                None
            } else {
                let named = nbt::put(seq![], wire::key("AttributeName"), nbt::string_tag(name));
                let called = nbt::put(named, wire::key("Name"), nbt::string_tag(m.id));
                let amount = nbt::put(called, wire::key("Amount"), nbt::double_tag(m.amount));
                let operation = nbt::put(amount, wire::key("Operation"), nbt::int_tag(m.operation));
                let identified = with_modifier_uuid(operation, m.id, index, version);
                Some(
                    match slot {
                        Some(slot) => nbt::put(identified, wire::key("Slot"), nbt::string_tag(slot)),
                        None => identified,
                    },
                )
            },
            None => None,
        },
        None => None,
    }
}

pub fn legacy_attribute_entry(modifier: &Modifier, index: i32, version: Version, cat: &Catalog) -> (res: Option<
    NbtCompound,
>)
    ensures
        nbt::view_opt(res) == attribute_entry(modifier@, index, version, cat),
{
    let name: &'static str = match legacy_attribute_name(cat, modifier.attribute, version) {
        Some(name) => name,
        None => {
            return None;
        },
    };
    let slot: LegacySlot = match legacy_slot(modifier.slot) {
        Some(slot) => slot,
        None => {
            return None;
        },
    };
    if modifier.operation < 0 || modifier.operation > 2 {
        return None;
    }
    let mut entry: NbtCompound = NbtCompound::new();
    entry.put_string("AttributeName".as_bytes(), name.as_bytes());
    entry.put_string("Name".as_bytes(), modifier.id.as_slice());
    entry.put("Amount".as_bytes(), nbt::new_double_tag(modifier.amount));
    entry.put_int("Operation".as_bytes(), modifier.operation);
    let (high, low): (u64, u64) = item_component::legacy_modifier_uuid(modifier.id.as_slice(), index);
    if version >= version::V_1_16 {
        entry.put(
            "UUID".as_bytes(),
            nbt::new_four_words_tag(
                wire::i32_from_bits((high / 0x1_0000_0000) as u32),
                wire::i32_from_bits((high % 0x1_0000_0000) as u32),
                wire::i32_from_bits((low / 0x1_0000_0000) as u32),
                wire::i32_from_bits((low % 0x1_0000_0000) as u32),
            ),
        );
    } else {
        entry.put("UUIDMost".as_bytes(), nbt::new_long_tag(high));
        entry.put("UUIDLeast".as_bytes(), nbt::new_long_tag(low));
    }
    if let LegacySlot::Named(slot) = slot {
        entry.put_string("Slot".as_bytes(), slot.as_bytes());
    }
    Some(entry)
}

/// The modifiers from `i` on that a release can express, as tags behind `tags`.
pub open spec fn attribute_tags(
    modifiers: Seq<ModifierView>,
    i: int,
    tags: Seq<Tag>,
    version: Version,
    cat: &Catalog,
) -> Seq<Tag>
    decreases modifiers.len() - i,
{
    if i < 0 || i >= modifiers.len() {
        tags
    } else {
        let index = if i <= i32::MAX {
            i as i32
        } else {
            0i32
        };
        match attribute_entry(modifiers[i], index, version, cat) {
            Some(c) => attribute_tags(modifiers, i + 1, tags.push(nbt::compound_tag(c)), version, cat),
            None => attribute_tags(modifiers, i + 1, tags, version, cat),
        }
    }
}

#[verifier::loop_isolation(false)]
fn legacy_attribute_list(modifiers: &Vec<Modifier>, version: Version, cat: &Catalog) -> (res: Vec<NbtTag>)
    ensures
        nbt::tag_views(res@) == attribute_tags(modifier_views(modifiers@), 0, seq![], version, cat),
{
    let mut tags: Vec<NbtTag> = Vec::new();
    let mut i: usize = 0;
    assert(nbt::tag_views(tags@) =~= seq![]);
    while i < modifiers.len()
        invariant
            i <= modifiers.len(),
            attribute_tags(modifier_views(modifiers@), 0, seq![], version, cat) == attribute_tags(
                modifier_views(modifiers@),
                i as int,
                nbt::tag_views(tags@),
                version,
                cat,
            ),
        decreases modifiers.len() - i,
    {
        let ghost before = nbt::tag_views(tags@);
        let index: i32 = if i as u64 <= 0x7fff_ffff {
            i as i32
        } else {
            0
        };
        if let Some(entry) = legacy_attribute_entry(&modifiers[i], index, version, cat) {
            let tag: NbtTag = entry.to_tag();
            let ghost view = tag@;
            tags.push(tag);
            assert(nbt::tag_views(tags@) =~= before.push(view));
        }
        i = i + 1;
    }
    tags
}

// --- profiles ----------------------------------------------------------------------------------

pub struct Property {
    pub name: Vec<u8>,
    pub value: Vec<u8>,
    pub signature: Option<Vec<u8>>,
}

/// A game profile; its identifier is four words.
pub struct Profile {
    pub name: Option<Vec<u8>>,
    pub id: Option<(i32, i32, i32, i32)>,
    pub properties: Vec<Property>,
}

/// The mathematical form of a property.
#[verifier::ext_equal]
pub struct PropertyView {
    pub name: Seq<u8>,
    pub value: Seq<u8>,
    pub signature: Option<Seq<u8>>,
}

/// The mathematical form of a profile.
#[verifier::ext_equal]
pub struct ProfileView {
    pub name: Option<Seq<u8>>,
    pub id: Option<(i32, i32, i32, i32)>,
    pub properties: Seq<PropertyView>,
}

impl View for Property {
    type V = PropertyView;

    open spec fn view(&self) -> PropertyView {
        PropertyView {
            name: self.name@,
            value: self.value@,
            signature: nbt::bytes_opt(self.signature),
        }
    }
}

pub open spec fn property_views(properties: Seq<Property>) -> Seq<PropertyView> {
    Seq::new(properties.len(), |i: int| properties[i]@)
}

impl View for Profile {
    type V = ProfileView;

    open spec fn view(&self) -> ProfileView {
        ProfileView {
            name: nbt::bytes_opt(self.name),
            id: self.id,
            properties: property_views(self.properties@),
        }
    }
}

/// Four words of an identifier.
pub open spec fn take_four_words(s: Seq<u8>) -> Option<((i32, i32, i32, i32), Seq<u8>)> {
    match wire::take_i32(s) {
        Some((a, s1)) => match wire::take_i32(s1) {
            Some((b, s2)) => match wire::take_i32(s2) {
                Some((c, s3)) => match wire::take_i32(s3) {
                    Some((d, rest)) => Some(((a, b, c, d), rest)),
                    None => None,
                },
                None => None,
            },
            None => None,
        },
        None => None,
    }
}

fn get_four_words(r: &mut &[u8]) -> (res: Result<(i32, i32, i32, i32), ReadingError>)
    ensures
        match take_four_words(old(r)@) {
            Some((words, rest)) => res == Ok::<(i32, i32, i32, i32), ReadingError>(words) && final(r)@ == rest,
            None => res is Err,
        },
{
    let a: i32 = wire::get_i32(r)?;
    let b: i32 = wire::get_i32(r)?;
    let c: i32 = wire::get_i32(r)?;
    let d: i32 = wire::get_i32(r)?;
    Ok((a, b, c, d))
}

/// A flag, then a string where it is set.
pub open spec fn take_opt_str(s: Seq<u8>) -> Option<(Option<Seq<u8>>, Seq<u8>)> {
    match wire::take_bool(s) {
        Some((present, t)) => if present {
            match wire::take_str(t) {
                Some((value, rest)) => Some((Some(value), rest)),
                None => None,
            }
        } else {
            Some((None, t))
        },
        None => None,
    }
}

fn get_opt_str(r: &mut &[u8]) -> (res: Result<Option<Vec<u8>>, ReadingError>)
    ensures
        match take_opt_str(old(r)@) {
            Some((value, rest)) => res is Ok && nbt::bytes_opt(res->Ok_0) == value && final(r)@ == rest,
            None => res is Err,
        },
{
    let present: bool = wire::get_bool(r)?;
    if present {
        let value: &[u8] = wire::get_str(r)?;
        Ok(Some(slice_to_vec(value)))
    } else {
        Ok(None)
    }
}

#[verifier::opaque]
pub open spec fn take_property(s: Seq<u8>) -> Option<(PropertyView, Seq<u8>)> {
    match wire::take_str(s) {
        Some((name, t)) => match wire::take_str(t) {
            Some((value, u)) => match take_opt_str(u) {
                Some((signature, rest)) => Some((PropertyView { name, value, signature }, rest)),
                None => None,
            },
            None => None,
        },
        None => None,
    }
}

pub open spec fn take_properties(properties: Seq<PropertyView>, n: nat, s: Seq<u8>) -> Option<Seq<PropertyView>>
    decreases n,
{
    if n == 0 {
        Some(properties)
    } else {
        match take_property(s) {
            Some((property, rest)) => take_properties(properties.push(property), (n - 1) as nat, rest),
            None => None,
        }
    }
}

/// The name and the identifier of a profile: both in a resolved one, either or
/// none in another.
pub open spec fn take_profile_head(s: Seq<u8>) -> Option<
    (Option<Seq<u8>>, Option<(i32, i32, i32, i32)>, Seq<u8>),
> {
    match wire::take_var_int(s) {
        Some((kind, t)) => if kind == 0 {
            match take_four_words(t) {
                Some((id, u)) => match wire::take_str(u) {
                    Some((name, rest)) => Some((Some(name), Some(id), rest)),
                    None => None,
                },
                None => None,
            }
        } else {
            match take_opt_str(t) {
                Some((name, u)) => match wire::take_bool(u) {
                    Some((present, v)) => if present {
                        match take_four_words(v) {
                            Some((id, rest)) => Some((name, Some(id), rest)),
                            None => None,
                        }
                    } else {
                        Some((name, None, v))
                    },
                    None => None,
                },
                None => None,
            }
        },
        None => None,
    }
}

/// The profile at the front of a payload.
pub open spec fn profile_of(s: Seq<u8>) -> Option<ProfileView> {
    match take_profile_head(s) {
        Some((name, id, t)) => match wire::take_var_int(t) {
            Some((n, u)) => match take_properties(seq![], shape::times(n), u) {
                Some(properties) => Some(ProfileView { name, id, properties }),
                None => None,
            },
            None => None,
        },
        None => None,
    }
}

fn read_property(r: &mut &[u8]) -> (res: Result<Property, ReadingError>)
    ensures
        match take_property(old(r)@) {
            Some((property, rest)) => res is Ok && res->Ok_0@ == property && final(r)@ == rest,
            None => res is Err,
        },
{
    proof {
        reveal(take_property);
    }
    let name: &[u8] = wire::get_str(r)?;
    let value: &[u8] = wire::get_str(r)?;
    let signature: Option<Vec<u8>> = get_opt_str(r)?;
    Ok(Property { name: slice_to_vec(name), value: slice_to_vec(value), signature })
}

fn read_profile_head(r: &mut &[u8]) -> (res: Result<
    (Option<Vec<u8>>, Option<(i32, i32, i32, i32)>),
    ReadingError,
>)
    ensures
        match take_profile_head(old(r)@) {
            Some((name, id, rest)) => res is Ok && nbt::bytes_opt(res->Ok_0.0) == name && res->Ok_0.1 == id
                && final(r)@ == rest,
            None => res is Err,
        },
{
    let kind: i32 = wire::get_var_int(r)?;
    if kind == 0 {
        let id: (i32, i32, i32, i32) = get_four_words(r)?;
        let name: &[u8] = wire::get_str(r)?;
        Ok((Some(slice_to_vec(name)), Some(id)))
    } else {
        let name: Option<Vec<u8>> = get_opt_str(r)?;
        let present: bool = wire::get_bool(r)?;
        if present {
            let id: (i32, i32, i32, i32) = get_four_words(r)?;
            Ok((name, Some(id)))
        } else {
            Ok((name, None))
        }
    }
}

#[verifier::loop_isolation(false)]
fn try_profile(r: &mut &[u8]) -> (res: Result<Profile, ReadingError>)
    ensures
        match profile_of(old(r)@) {
            Some(profile) => res is Ok && res->Ok_0@ == profile,
            None => res is Err,
        },
{
    let (name, id): (Option<Vec<u8>>, Option<(i32, i32, i32, i32)>) = read_profile_head(r)?;
    let n: i32 = wire::get_var_int(r)?;
    let ghost start = r@;
    let mut properties: Vec<Property> = Vec::new();
    let mut left: u32 = if n < 0 { 0 } else { n as u32 };
    assert(property_views(properties@) =~= seq![]);
    while left > 0
        invariant
            take_properties(seq![], shape::times(n), start) == take_properties(
                property_views(properties@),
                left as nat,
                r@,
            ),
        decreases left,
    {
        let ghost before = property_views(properties@);
        let property: Property = read_property(r)?;
        let ghost view = property@;
        properties.push(property);
        assert(property_views(properties@) =~= before.push(view));
        left = left - 1;
    }
    Ok(Profile { name, id, properties })
}

pub open spec fn same_profile(res: Option<Profile>, wanted: Option<ProfileView>) -> bool {
    match wanted {
        Some(profile) => res is Some && res->0@ == profile,
        None => res is None,
    }
}

/// Reads the profile at the front of a payload.
pub fn read_profile(data: &[u8]) -> (res: Option<Profile>)
    ensures
        same_profile(res, profile_of(data@)),
{
    let mut r: &[u8] = data;
    match try_profile(&mut r) {
        Ok(profile) => Some(profile),
        Err(_) => None,
    }
}

pub open spec fn enc_opt_str(value: Option<Seq<u8>>) -> Seq<u8> {
    match value {
        Some(value) => seq![1u8] + wire::enc_str(value),
        None => seq![0u8],
    }
}

pub open spec fn enc_property(p: PropertyView) -> Seq<u8> {
    wire::enc_str(p.name) + wire::enc_str(p.value) + enc_opt_str(p.signature)
}

pub open spec fn enc_properties(properties: Seq<PropertyView>) -> Seq<u8>
    decreases properties.len(),
{
    if properties.len() == 0 {
        seq![]
    } else {
        enc_properties(properties.drop_last()) + enc_property(properties.last())
    }
}

pub open spec fn enc_profile_id(id: Option<(i32, i32, i32, i32)>) -> Seq<u8> {
    match id {
        Some(id) => seq![1u8] + wire::enc_i32(id.0) + wire::enc_i32(id.1) + wire::enc_i32(id.2) + wire::enc_i32(
            id.3,
        ),
        None => seq![0u8],
    }
}

/// A count, or zero where it does not fit.
pub open spec fn enc_count(n: nat) -> Seq<u8> {
    wire::enc_var_int(
        if n <= i32::MAX {
            n as i32
        } else {
            0i32
        },
    )
}

pub fn write_count(out: &mut Vec<u8>, n: usize)
    ensures
        final(out)@ == old(out)@ + enc_count(n as nat),
{
    wire::write_var_int(
        out,
        if n as u64 <= 0x7fff_ffff {
            n as i32
        } else {
            0
        },
    );
}

/// A profile that is yet to be resolved, with an empty skin patch.
pub open spec fn enc_profile(p: ProfileView) -> Seq<u8> {
    wire::enc_var_int(1) + enc_opt_str(p.name) + enc_profile_id(p.id) + enc_count(p.properties.len())
        + enc_properties(p.properties) + seq![0u8, 0u8, 0u8, 0u8]
}

fn write_opt_str(out: &mut Vec<u8>, value: &Option<Vec<u8>>)
    ensures
        final(out)@ == old(out)@ + enc_opt_str(nbt::bytes_opt(*value)),
{
    match value {
        Some(value) => {
            out.push(1);
            wire::write_str(out, value.as_slice());
        },
        None => {
            out.push(0);
        },
    }
}

fn write_properties(out: &mut Vec<u8>, properties: &Vec<Property>)
    ensures
        final(out)@ == old(out)@ + enc_properties(property_views(properties@)),
{
    let ghost views = property_views(properties@);
    let mut i: usize = 0;
    assert(views.take(0) =~= seq![]);
    assert(out@ =~= old(out)@ + enc_properties(views.take(0)));
    while i < properties.len()
        invariant
            i <= properties.len(),
            views == property_views(properties@),
            out@ == old(out)@ + enc_properties(views.take(i as int)),
        decreases properties.len() - i,
    {
        let mut entry: Vec<u8> = Vec::new();
        wire::write_str(&mut entry, properties[i].name.as_slice());
        wire::write_str(&mut entry, properties[i].value.as_slice());
        write_opt_str(&mut entry, &properties[i].signature);
        assert(entry@ =~= enc_property(views[i as int]));
        wire::write_bytes(out, entry.as_slice());
        proof {
            let next = views.take(i + 1);
            assert(next.drop_last() =~= views.take(i as int));
            assert(next.last() == views[i as int]);
            assert(out@ =~= old(out)@ + enc_properties(next));
        }
        i = i + 1;
    }
    assert(views.take(views.len() as int) =~= views);
}

/// Writes a profile that is yet to be resolved.
pub fn write_profile(profile: &Profile) -> (res: Vec<u8>)
    ensures
        res@ == enc_profile(profile@),
{
    let mut out: Vec<u8> = wire::var_int_bytes(1);
    write_opt_str(&mut out, &profile.name);
    let mut id: Vec<u8> = Vec::new();
    match profile.id {
        Some(words) => {
            id.push(1);
            wire::write_i32(&mut id, words.0);
            wire::write_i32(&mut id, words.1);
            wire::write_i32(&mut id, words.2);
            wire::write_i32(&mut id, words.3);
        },
        None => {
            id.push(0);
        },
    }
    assert(id@ =~= enc_profile_id(profile.id));
    wire::write_bytes(&mut out, id.as_slice());
    write_count(&mut out, profile.properties.len());
    write_properties(&mut out, &profile.properties);
    let ghost before = out@;
    out.push(0);
    out.push(0);
    out.push(0);
    out.push(0);
    assert(out@ =~= before + seq![0u8, 0u8, 0u8, 0u8]);
    out
}

pub open spec fn texture_tag(p: PropertyView) -> Tag {
    let value = nbt::put(seq![], wire::key("Value"), nbt::string_tag(p.value));
    nbt::compound_tag(
        match p.signature {
            Some(signature) => nbt::put(value, wire::key("Signature"), nbt::string_tag(signature)),
            None => value,
        },
    )
}

/// The textures among a profile's properties, as tags behind `tags`.
pub open spec fn texture_tags(properties: Seq<PropertyView>, i: int, tags: Seq<Tag>) -> Seq<Tag>
    decreases properties.len() - i,
{
    if i < 0 || i >= properties.len() {
        tags
    } else if properties[i].name == wire::key("textures") {
        texture_tags(properties, i + 1, tags.push(texture_tag(properties[i])))
    } else {
        texture_tags(properties, i + 1, tags)
    }
}

/// The identifier of a skull's owner: an int array from 1.16, a text before.
pub open spec fn owner_id_tag(id: (i32, i32, i32, i32), version: Version) -> Tag {
    if version >= version::V_1_16 {
        nbt::four_words_tag(id.0, id.1, id.2, id.3)
    } else {
        nbt::string_tag(
            text::hyphenated(
                (wire::bits_of_i32(id.0) * 0x1_0000_0000 + wire::bits_of_i32(id.1)) as u64,
                (wire::bits_of_i32(id.2) * 0x1_0000_0000 + wire::bits_of_i32(id.3)) as u64,
            ),
        )
    }
}

/// A profile as the owner of a skull; nothing where it says nothing.
pub open spec fn skull_owner(p: ProfileView, version: Version) -> Option<Seq<Entry>> {
    let named = match p.name {
        Some(name) => nbt::put(seq![], wire::key("Name"), nbt::string_tag(name)),
        None => seq![],
    };
    let identified = match p.id {
        Some(id) => nbt::put(named, wire::key("Id"), owner_id_tag(id, version)),
        None => named,
    };
    let textures = texture_tags(p.properties, 0, seq![]);
    let owner = if textures.len() == 0 {
        identified
    } else {
        nbt::put(
            identified,
            wire::key("Properties"),
            nbt::compound_tag(nbt::put(seq![], wire::key("textures"), nbt::list_tag(textures))),
        )
    };
    if owner.len() == 0 {
        None
    } else {
        Some(owner)
    }
}

#[verifier::loop_isolation(false)]
fn texture_list(properties: &Vec<Property>) -> (res: Vec<NbtTag>)
    ensures
        nbt::tag_views(res@) == texture_tags(property_views(properties@), 0, seq![]),
{
    let mut tags: Vec<NbtTag> = Vec::new();
    let mut i: usize = 0;
    assert(nbt::tag_views(tags@) =~= seq![]);
    while i < properties.len()
        invariant
            i <= properties.len(),
            texture_tags(property_views(properties@), 0, seq![]) == texture_tags(
                property_views(properties@),
                i as int,
                nbt::tag_views(tags@),
            ),
        decreases properties.len() - i,
    {
        let ghost before = nbt::tag_views(tags@);
        if wire::same_bytes(properties[i].name.as_slice(), "textures".as_bytes()) {
            let mut texture: NbtCompound = NbtCompound::new();
            texture.put_string("Value".as_bytes(), properties[i].value.as_slice());
            if let Some(signature) = &properties[i].signature {
                texture.put_string("Signature".as_bytes(), signature.as_slice());
            }
            let tag: NbtTag = texture.to_tag();
            let ghost view = tag@;
            tags.push(tag);
            assert(nbt::tag_views(tags@) =~= before.push(view));
        }
        i = i + 1;
    }
    tags
}

pub fn legacy_skull_owner(profile: &Profile, version: Version) -> (res: Option<NbtCompound>)
    ensures
        nbt::view_opt(res) == skull_owner(profile@, version),
{
    let mut owner: NbtCompound = NbtCompound::new();
    if let Some(name) = &profile.name {
        owner.put_string("Name".as_bytes(), name.as_slice());
    }
    if let Some(id) = profile.id {
        if version >= version::V_1_16 {
            owner.put("Id".as_bytes(), nbt::new_four_words_tag(id.0, id.1, id.2, id.3));
        } else {
            let high: u64 = wire::i32_to_bits(id.0) as u64 * 0x1_0000_0000 + wire::i32_to_bits(id.1) as u64;
            let low: u64 = wire::i32_to_bits(id.2) as u64 * 0x1_0000_0000 + wire::i32_to_bits(id.3) as u64;
            owner.put_string("Id".as_bytes(), text::uuid_text(high, low).as_slice());
        }
    }
    let textures: Vec<NbtTag> = texture_list(&profile.properties);
    if textures.len() != 0 {
        let mut properties: NbtCompound = NbtCompound::new();
        properties.put_list("textures".as_bytes(), &textures);
        owner.put_compound("Properties".as_bytes(), &properties);
    }
    if owner.is_empty() {
        None
    } else {
        Some(owner)
    }
}


// --- potions -----------------------------------------------------------------------------------

/// The potions that came in 1.21.
pub open spec fn is_potion_1_21(name: Seq<u8>) -> bool {
    ||| name == wire::key("infested")
    ||| name == wire::key("oozing")
    ||| name == wire::key("weaving")
    ||| name == wire::key("wind_charged")
}

/// The name of a potion id, one byte wide, where clients of a release know it.
pub open spec fn potion_name(cat: &Catalog, id: i32, version: Version) -> Option<Seq<u8>> {
    if id > 255 {
        None
    } else {
        match catalog::name_at(cat.potions@, id) {
            Some(name) => if version >= version::V_1_21 || !is_potion_1_21(name) {
                Some(text::namespaced(name))
            } else {
                None
            },
            None => None,
        }
    }
}

pub fn legacy_potion_name(cat: &Catalog, id: i32, version: Version) -> (res: Option<Vec<u8>>)
    ensures
        item_component::same_option(res, potion_name(cat, id, version)),
{
    if id > 255 {
        return None;
    }
    match catalog::get_name(&cat.potions, id) {
        Some(name) => {
            let is_new: bool = wire::same_bytes(name, "infested".as_bytes()) || wire::same_bytes(
                name,
                "oozing".as_bytes(),
            ) || wire::same_bytes(name, "weaving".as_bytes()) || wire::same_bytes(
                name,
                "wind_charged".as_bytes(),
            );
            if version >= version::V_1_21 || !is_new {
                Some(text::with_namespace(name))
            } else {
                None
            }
        },
        None => None,
    }
}

/// The lowest byte of a number.
pub open spec fn low_byte(n: i32) -> u8 {
    (wire::bits_of_i32(n) % 256) as u8
}

fn to_low_byte(n: i32) -> (res: u8)
    ensures
        res == low_byte(n),
{
    (wire::i32_to_bits(n) % 256) as u8
}

pub open spec fn effect_entries(amplifier: i32, duration: i32, flags: Seq<u8>) -> Seq<Entry> {
    let a = nbt::put(seq![], wire::key("Amplifier"), nbt::byte_tag(low_byte(amplifier)));
    let b = nbt::put(a, wire::key("Duration"), nbt::int_tag(duration));
    let c = nbt::put(b, wire::key("Ambient"), nbt::bool_tag(flags[0] != 0));
    let d = nbt::put(c, wire::key("ShowParticles"), nbt::bool_tag(flags[1] != 0));
    nbt::put(d, wire::key("ShowIcon"), nbt::bool_tag(flags[2] != 0))
}

/// The parameters of a status effect as entries, with those of the effect it
/// hides, if any.
pub open spec fn take_effect(s: Seq<u8>) -> Option<(Seq<Entry>, Seq<u8>)>
    decreases s.len(),
{
    match wire::take_var_int(s) {
        Some((amplifier, t)) => match wire::take_var_int(t) {
            Some((duration, flags)) => if flags.len() < 4 || flags.len() >= s.len() {
                None
            } else {
                let entries = effect_entries(amplifier, duration, flags);
                if flags[3] != 0 {
                    match take_effect(flags.skip(4)) {
                        Some((hidden, rest)) => Some(
                            (nbt::put(entries, wire::key("HiddenEffect"), nbt::compound_tag(hidden)), rest),
                        ),
                        None => None,
                    }
                } else {
                    Some((entries, flags.skip(4)))
                }
            },
            None => None,
        },
        None => None,
    }
}

pub fn potion_effect_data_to_nbt(r: &mut &[u8]) -> (res: Result<NbtCompound, ReadingError>)
    ensures
        match take_effect(old(r)@) {
            Some((entries, rest)) => res is Ok && res->Ok_0@ == entries && final(r)@ == rest,
            None => res is Err,
        },
    decreases old(r)@.len(),
{
    let before: usize = r.len();
    let amplifier: i32 = wire::get_var_int(r)?;
    let duration: i32 = wire::get_var_int(r)?;
    if r.len() < 4 || r.len() >= before {
        return Err(ReadingError::Malformed);
    }
    let flags: &[u8] = *r;
    *r = slice_subrange(flags, 4, flags.len());
    assert(r@ =~= flags@.skip(4));
    let mut effect: NbtCompound = NbtCompound::new();
    effect.put_byte("Amplifier".as_bytes(), to_low_byte(amplifier));
    effect.put_int("Duration".as_bytes(), duration);
    effect.put_bool("Ambient".as_bytes(), flags[0] != 0);
    effect.put_bool("ShowParticles".as_bytes(), flags[1] != 0);
    effect.put_bool("ShowIcon".as_bytes(), flags[2] != 0);
    if flags[3] != 0 {
        let hidden: NbtCompound = potion_effect_data_to_nbt(r)?;
        effect.put_compound("HiddenEffect".as_bytes(), &hidden);
    }
    Ok(effect)
}

/// The id of an effect in a release, by its name.
pub open spec fn effect_id(cat: &Catalog, id: i32, version: Version) -> Option<i32> {
    match catalog::entry_name(cat, version::V_26_3, wire::key("mob_effect"), id) {
        Some(name) => catalog::entry_id(cat, version, wire::key("mob_effect"), name),
        None => None,
    }
}

pub fn legacy_effect_id(cat: &Catalog, id: i32, version: Version) -> (res: Option<i32>)
    ensures
        res == effect_id(cat, id, version),
{
    match cat.registry_entry_name(version::V_26_3, "mob_effect".as_bytes(), id) {
        Some(name) => cat.registry_entry_id(version, "mob_effect".as_bytes(), name),
        None => None,
    }
}

/// `n` effects, those that the release has put behind `tags`.
pub open spec fn take_effects(tags: Seq<Tag>, n: nat, s: Seq<u8>, version: Version, cat: &Catalog) -> Option<
    (Seq<Tag>, Seq<u8>),
>
    decreases n,
{
    if n == 0 {
        Some((tags, s))
    } else {
        match wire::take_var_int(s) {
            Some((id, t)) => match take_effect(t) {
                Some((entries, rest)) => take_effects(
                    match effect_id(cat, id, version) {
                        Some(target) => tags.push(
                            nbt::compound_tag(
                                nbt::put(entries, wire::key("Id"), nbt::byte_tag(low_byte(target))),
                            ),
                        ),
                        None => tags,
                    },
                    (n - 1) as nat,
                    rest,
                    version,
                    cat,
                ),
                None => None,
            },
            None => None,
        }
    }
}

/// The custom effects of a potion, with a name it may have behind them and
/// nothing else.
pub open spec fn custom_effects(s: Seq<u8>, version: Version, cat: &Catalog) -> Option<Seq<Tag>> {
    match wire::take_var_int(s) {
        Some((n, t)) => if n < 0 || n > item_component::MAX_ENTRIES {
            None
        } else {
            match take_effects(seq![], n as nat, t, version, cat) {
                Some((tags, u)) => match take_opt_str(u) {
                    Some((name, rest)) => if rest.len() == 0 {
                        Some(tags)
                    } else {
                        None
                    },
                    None => None,
                },
                None => None,
            }
        },
        None => None,
    }
}

#[verifier::loop_isolation(false)]
fn try_custom_effects(r: &mut &[u8], version: Version, cat: &Catalog) -> (res: Result<Vec<NbtTag>, ReadingError>)
    ensures
        match custom_effects(old(r)@, version, cat) {
            Some(tags) => res is Ok && nbt::tag_views(res->Ok_0@) == tags,
            None => res is Err,
        },
{
    let n: i32 = wire::get_var_int(r)?;
    if n < 0 || n > item_component::MAX_ENTRIES {
        return Err(ReadingError::Malformed);
    }
    let ghost start = r@;
    let mut tags: Vec<NbtTag> = Vec::new();
    let mut left: i32 = n;
    assert(nbt::tag_views(tags@) =~= seq![]);
    while left > 0
        invariant
            0 <= left <= n,
            take_effects(seq![], n as nat, start, version, cat) == take_effects(
                nbt::tag_views(tags@),
                left as nat,
                r@,
                version,
                cat,
            ),
        decreases left,
    {
        let ghost before = nbt::tag_views(tags@);
        let id: i32 = wire::get_var_int(r)?;
        let entries: NbtCompound = potion_effect_data_to_nbt(r)?;
        if let Some(target) = legacy_effect_id(cat, id, version) {
            let mut effect: NbtCompound = entries;
            effect.put_byte("Id".as_bytes(), to_low_byte(target));
            let tag: NbtTag = effect.to_tag();
            let ghost view = tag@;
            tags.push(tag);
            assert(nbt::tag_views(tags@) =~= before.push(view));
        }
        left = left - 1;
    }
    get_opt_str(r)?;
    if r.len() != 0 {
        return Err(ReadingError::Malformed);
    }
    Ok(tags)
}

pub fn legacy_custom_potion_effects(data: &[u8], version: Version, cat: &Catalog) -> (res: Option<Vec<NbtTag>>)
    ensures
        nbt::tags_opt(res) == custom_effects(data@, version, cat),
{
    let mut r: &[u8] = data;
    match try_custom_effects(&mut r, version, cat) {
        Ok(tags) => Some(tags),
        Err(_) => None,
    }
}

/// The root of a stack with its potion put in: its name where the release knows
/// it, its color, its custom effects. What cannot be read is left out.
pub open spec fn with_potion(root: Seq<Entry>, data: Seq<u8>, version: Version, cat: &Catalog) -> Seq<Entry> {
    match wire::take_bool(data) {
        Some((has_potion, s)) => {
            // A potion id that cannot be read is not moved past.
            let (named, t, readable) = if has_potion {
                match wire::take_var_int(s) {
                    Some((id, t)) => (
                        match potion_name(cat, id, version) {
                            Some(name) => nbt::put(root, wire::key("Potion"), nbt::string_tag(name)),
                            None => root,
                        },
                        t,
                        true,
                    ),
                    None => (root, s, false),
                }
            } else {
                (root, s, true)
            };
            if !readable {
                named
            } else {
                match wire::take_bool(t) {
                    Some((has_color, u)) => if has_color {
                        match wire::take_i32(u) {
                            Some((color, rest)) => with_effects(
                                nbt::put(named, wire::key("CustomPotionColor"), nbt::int_tag(color)),
                                rest,
                                version,
                                cat,
                            ),
                            None => named,
                        }
                    } else {
                        with_effects(named, u, version, cat)
                    },
                    None => named,
                }
            }
        },
        None => root,
    }
}

pub open spec fn with_effects(root: Seq<Entry>, s: Seq<u8>, version: Version, cat: &Catalog) -> Seq<Entry> {
    match custom_effects(s, version, cat) {
        Some(tags) => if tags.len() == 0 {
            root
        } else {
            nbt::put(root, wire::key("CustomPotionEffects"), nbt::list_tag(tags))
        },
        None => root,
    }
}

fn put_effects(root: &mut NbtCompound, data: &[u8], version: Version, cat: &Catalog)
    ensures
        final(root)@ == with_effects(old(root)@, data@, version, cat),
{
    if let Some(tags) = legacy_custom_potion_effects(data, version, cat) {
        if tags.len() != 0 {
            root.put_list("CustomPotionEffects".as_bytes(), &tags);
        }
    }
}

fn put_potion(root: &mut NbtCompound, data: &[u8], version: Version, cat: &Catalog)
    ensures
        final(root)@ == with_potion(old(root)@, data@, version, cat),
{
    let mut r: &[u8] = data;
    let has_potion: bool = match wire::get_bool(&mut r) {
        Ok(has_potion) => has_potion,
        Err(_) => {
            return;
        },
    };
    if has_potion {
        match wire::get_var_int(&mut r) {
            Ok(id) => {
                if let Some(name) = legacy_potion_name(cat, id, version) {
                    root.put_string("Potion".as_bytes(), name.as_slice());
                }
            },
            Err(_) => {
                return;
            },
        }
    }
    let has_color: bool = match wire::get_bool(&mut r) {
        Ok(has_color) => has_color,
        Err(_) => {
            return;
        },
    };
    if has_color {
        match wire::get_i32(&mut r) {
            Ok(color) => {
                root.put_int("CustomPotionColor".as_bytes(), color);
            },
            Err(_) => {
                return;
            },
        }
    }
    put_effects(root, r, version, cat);
}

// --- books -----------------------------------------------------------------------------------------

/// `n` pages of a written book, in their plain form, as tags behind `pages`.
pub open spec fn take_written_pages(pages: Seq<Tag>, n: nat, s: Seq<u8>, texts: &Texts) -> Option<Seq<Tag>>
    decreases n,
{
    if n == 0 {
        Some(pages)
    } else {
        match nbt::take_nbt(s, false) {
            Some((tag, t)) => match wire::take_bool(t) {
                Some((filtered, u)) => {
                    let rest = if filtered {
                        shape::drop_nbt(u, version::V_26_2)
                    } else {
                        Some(u)
                    };
                    match rest {
                        Some(rest) => take_written_pages(
                            pages.push(nbt::string_tag(target::plain_of(texts, tag))),
                            (n - 1) as nat,
                            rest,
                            texts,
                        ),
                        None => None,
                    }
                },
                None => None,
            },
            None => None,
        }
    }
}

/// What stands behind a string and the filtered form it may have.
pub open spec fn take_filtered_str(s: Seq<u8>) -> Option<(Seq<u8>, Seq<u8>)> {
    match wire::take_str(s) {
        Some((value, t)) => match take_opt_str(t) {
            Some((filtered, rest)) => Some((value, rest)),
            None => None,
        },
        None => None,
    }
}

/// The title, the author and the pages of a written book.
pub open spec fn written_book(data: Seq<u8>, texts: &Texts) -> Option<(Seq<u8>, Seq<u8>, Seq<Tag>)> {
    match take_filtered_str(data) {
        Some((title, s)) => match wire::take_str(s) {
            Some((author, t)) => match wire::take_var_int(t) {
                Some((generation, u)) => match wire::take_var_int(u) {
                    Some((n, v)) => match take_written_pages(seq![], shape::times(n), v, texts) {
                        Some(pages) => Some((title, author, pages)),
                        None => None,
                    },
                    None => None,
                },
                None => None,
            },
            None => None,
        },
        None => None,
    }
}

/// `n` pages of a book that is being written, as tags behind `pages`.
pub open spec fn take_pages(pages: Seq<Tag>, n: nat, s: Seq<u8>) -> Option<Seq<Tag>>
    decreases n,
{
    if n == 0 {
        Some(pages)
    } else {
        match take_filtered_str(s) {
            Some((page, rest)) => take_pages(pages.push(nbt::string_tag(page)), (n - 1) as nat, rest),
            None => None,
        }
    }
}

/// The pages of a book that is being written.
pub open spec fn writable_book(data: Seq<u8>) -> Option<Seq<Tag>> {
    match wire::take_var_int(data) {
        Some((n, s)) => take_pages(seq![], shape::times(n), s),
        None => None,
    }
}

fn get_filtered_str<'a>(r: &mut &'a [u8]) -> (res: Result<&'a [u8], ReadingError>)
    ensures
        match take_filtered_str(old(r)@) {
            Some((value, rest)) => res is Ok && res->Ok_0@ == value && final(r)@ == rest,
            None => res is Err,
        },
{
    let value: &'a [u8] = wire::get_str(r)?;
    get_opt_str(r)?;
    Ok(value)
}

#[verifier::loop_isolation(false)]
fn try_written_book(r: &mut &[u8], texts: &Texts) -> (res: Result<(Vec<u8>, Vec<u8>, Vec<NbtTag>), ReadingError>)
    ensures
        match written_book(old(r)@, texts) {
            Some((title, author, pages)) => res is Ok && res->Ok_0.0@ == title && res->Ok_0.1@ == author
                && nbt::tag_views(res->Ok_0.2@) == pages,
            None => res is Err,
        },
{
    let title: &[u8] = get_filtered_str(r)?;
    let author: &[u8] = wire::get_str(r)?;
    wire::get_var_int(r)?;
    let n: i32 = wire::get_var_int(r)?;
    let ghost start = r@;
    let mut pages: Vec<NbtTag> = Vec::new();
    let mut left: u32 = if n < 0 { 0 } else { n as u32 };
    assert(nbt::tag_views(pages@) =~= seq![]);
    while left > 0
        invariant
            take_written_pages(seq![], shape::times(n), start, texts) == take_written_pages(
                nbt::tag_views(pages@),
                left as nat,
                r@,
                texts,
            ),
        decreases left,
    {
        let ghost before = nbt::tag_views(pages@);
        let tag: Option<NbtTag> = nbt::get_nbt(r, false)?;
        let filtered: bool = wire::get_bool(r)?;
        if filtered {
            shape::skip_nbt(r, version::V_26_2)?;
        }
        let page: NbtTag = nbt::new_string_tag(texts.plain(&tag).as_slice());
        let ghost view = page@;
        pages.push(page);
        assert(nbt::tag_views(pages@) =~= before.push(view));
        left = left - 1;
    }
    Ok((slice_to_vec(title), slice_to_vec(author), pages))
}

#[verifier::loop_isolation(false)]
fn try_writable_book(r: &mut &[u8]) -> (res: Result<Vec<NbtTag>, ReadingError>)
    ensures
        match writable_book(old(r)@) {
            Some(pages) => res is Ok && nbt::tag_views(res->Ok_0@) == pages,
            None => res is Err,
        },
{
    let n: i32 = wire::get_var_int(r)?;
    let ghost start = r@;
    let mut pages: Vec<NbtTag> = Vec::new();
    let mut left: u32 = if n < 0 { 0 } else { n as u32 };
    assert(nbt::tag_views(pages@) =~= seq![]);
    while left > 0
        invariant
            take_pages(seq![], shape::times(n), start) == take_pages(nbt::tag_views(pages@), left as nat, r@),
        decreases left,
    {
        let ghost before = nbt::tag_views(pages@);
        let page: &[u8] = get_filtered_str(r)?;
        let tag: NbtTag = nbt::new_string_tag(page);
        let ghost view = tag@;
        pages.push(tag);
        assert(nbt::tag_views(pages@) =~= before.push(view));
        left = left - 1;
    }
    Ok(pages)
}

pub open spec fn with_written_book(root: Seq<Entry>, data: Seq<u8>, texts: &Texts) -> Seq<Entry> {
    match written_book(data, texts) {
        Some((title, author, pages)) => {
            let a = nbt::put(root, wire::key("title"), nbt::string_tag(title));
            let b = nbt::put(a, wire::key("author"), nbt::string_tag(author));
            let c = nbt::put(b, wire::key("pages"), nbt::list_tag(pages));
            nbt::put(c, wire::key("resolved"), nbt::bool_tag(true))
        },
        None => root,
    }
}

pub open spec fn with_writable_book(root: Seq<Entry>, data: Seq<u8>) -> Seq<Entry> {
    match writable_book(data) {
        Some(pages) => if pages.len() == 0 {
            root
        } else {
            nbt::put(root, wire::key("pages"), nbt::list_tag(pages))
        },
        None => root,
    }
}

fn put_written_book(root: &mut NbtCompound, data: &[u8], texts: &Texts)
    ensures
        final(root)@ == with_written_book(old(root)@, data@, texts),
{
    let mut r: &[u8] = data;
    if let Ok((title, author, pages)) = try_written_book(&mut r, texts) {
        root.put_string("title".as_bytes(), title.as_slice());
        root.put_string("author".as_bytes(), author.as_slice());
        root.put_list("pages".as_bytes(), &pages);
        root.put_bool("resolved".as_bytes(), true);
    }
}

fn put_writable_book(root: &mut NbtCompound, data: &[u8])
    ensures
        final(root)@ == with_writable_book(old(root)@, data@),
{
    let mut r: &[u8] = data;
    if let Ok(pages) = try_writable_book(&mut r) {
        if pages.len() != 0 {
            root.put_list("pages".as_bytes(), &pages);
        }
    }
}


// --- adventure predicates --------------------------------------------------------------------------

/// The name of a block, where the release has it under an id of its own.
pub open spec fn block_name(id: i32, ids: &ComposedMappings, cat: &Catalog) -> Option<Seq<u8>> {
    match mapping::target_of(ids.blocks@, id as u32) {
        Some(target) => if mapping::source_of(ids.blocks@, target) == Some(id as u32) {
            match catalog::entry_name(cat, version::V_26_3, wire::key("block"), id) {
                Some(name) => Some(text::namespaced(name)),
                None => None,
            }
        } else {
            None
        },
        None => None,
    }
}

/// `n` block ids, the names of those that the release has put behind `names`.
/// An id is never negative.
pub open spec fn take_block_names(
    names: Seq<Seq<u8>>,
    n: nat,
    s: Seq<u8>,
    ids: &ComposedMappings,
    cat: &Catalog,
) -> Option<(Seq<Seq<u8>>, Seq<u8>)>
    decreases n,
{
    if n == 0 {
        Some((names, s))
    } else {
        match wire::take_var_int(s) {
            Some((id, rest)) => if id < 0 {
                None
            } else {
                take_block_names(
                    match block_name(id, ids, cat) {
                        Some(name) => names.push(name),
                        None => names,
                    },
                    (n - 1) as nat,
                    rest,
                    ids,
                    cat,
                )
            },
            None => None,
        }
    }
}

/// The blocks of a predicate: none, a tag, or single blocks.
pub open spec fn take_blocks(s: Seq<u8>, ids: &ComposedMappings, cat: &Catalog) -> Option<
    (Seq<Seq<u8>>, Seq<u8>),
> {
    match wire::take_bool(s) {
        Some((present, t)) => if !present {
            Some((seq![], t))
        } else {
            match wire::take_var_int(t) {
                Some((selector, u)) => if selector == 0 {
                    match wire::take_str(u) {
                        Some((name, rest)) => Some((seq![wire::key("#") + name], rest)),
                        None => None,
                    }
                } else if 0 < selector <= item_component::MAX_ENTRIES + 1 {
                    take_block_names(seq![], (selector - 1) as nat, u, ids, cat)
                } else {
                    None
                },
                None => None,
            }
        },
        None => None,
    }
}

/// `n` property conditions: the exact ones put behind `conditions`, with a mark
/// where one of them is a range.
pub open spec fn take_conditions(conditions: Seq<Seq<u8>>, ranged: bool, n: nat, s: Seq<u8>) -> Option<
    (Seq<Seq<u8>>, bool, Seq<u8>),
>
    decreases n,
{
    if n == 0 {
        Some((conditions, ranged, s))
    } else {
        match wire::take_str(s) {
            Some((name, t)) => match wire::take_bool(t) {
                Some((exact, u)) => if exact {
                    match wire::take_str(u) {
                        Some((value, rest)) => take_conditions(
                            conditions.push(name + wire::key("=") + value),
                            ranged,
                            (n - 1) as nat,
                            rest,
                        ),
                        None => None,
                    }
                } else {
                    match take_opt_str(u) {
                        Some((low, v)) => match take_opt_str(v) {
                            Some((high, rest)) => take_conditions(conditions, true, (n - 1) as nat, rest),
                            None => None,
                        },
                        None => None,
                    }
                },
                None => None,
            },
            None => None,
        }
    }
}

/// The property conditions of a predicate, if it has any.
pub open spec fn take_property_conditions(s: Seq<u8>) -> Option<(Seq<Seq<u8>>, bool, Seq<u8>)> {
    match wire::take_bool(s) {
        Some((present, t)) => if !present {
            Some((seq![], false, t))
        } else {
            match wire::take_var_int(t) {
                Some((n, u)) => if n < 0 || n > item_component::MAX_ENTRIES {
                    None
                } else {
                    take_conditions(seq![], false, n as nat, u)
                },
                None => None,
            }
        },
        None => None,
    }
}

/// Texts with a comma between them.
pub open spec fn joined(texts: Seq<Seq<u8>>) -> Seq<u8>
    decreases texts.len(),
{
    if texts.len() == 0 {
        seq![]
    } else if texts.len() == 1 {
        texts[0]
    } else {
        joined(texts.drop_last()) + wire::key(",") + texts.last()
    }
}

/// A block with its conditions, as the old form spells it.
pub open spec fn spelled(block: Seq<u8>, conditions: Seq<Seq<u8>>) -> Seq<u8> {
    if conditions.len() == 0 {
        block
    } else {
        block + wire::key("[") + joined(conditions) + wire::key("]")
    }
}

pub open spec fn with_spelled(tags: Seq<Tag>, blocks: Seq<Seq<u8>>, i: int, conditions: Seq<Seq<u8>>) -> Seq<Tag>
    decreases blocks.len() - i,
{
    if i < 0 || i >= blocks.len() {
        tags
    } else {
        with_spelled(
            tags.push(nbt::string_tag(spelled(blocks[i], conditions))),
            blocks,
            i + 1,
            conditions,
        )
    }
}

/// How many matchers stand at the front, and what stands behind them.
pub open spec fn take_matchers(s: Seq<u8>, element: Shape, cat: &Catalog) -> Option<(i32, Seq<u8>)> {
    match wire::take_var_int(s) {
        Some((n, t)) => if n < 0 || n > item_component::MAX_ENTRIES {
            None
        } else {
            match shape::drop_shape(shape::array(element), s, cat, version::V_26_3) {
                Some(rest) => Some((n, rest)),
                None => None,
            }
        },
        None => None,
    }
}

/// Whether a predicate has an NBT condition, and what stands behind it.
pub open spec fn take_nbt_condition(s: Seq<u8>) -> Option<(bool, Seq<u8>)> {
    match wire::take_bool(s) {
        Some((present, t)) => if present {
            match shape::drop_nbt(t, version::V_26_3) {
                Some(rest) => Some((true, rest)),
                None => None,
            }
        } else {
            Some((false, t))
        },
        None => None,
    }
}

/// One predicate, its blocks put behind `tags` in the old form. A predicate with
/// a condition that the old form cannot express puts nothing there: to leave the
/// condition out would widen what it allows.
#[verifier::opaque]
pub open spec fn take_predicate(tags: Seq<Tag>, s: Seq<u8>, ids: &ComposedMappings, cat: &Catalog) -> Option<
    (Seq<Tag>, Seq<u8>),
> {
    match take_blocks(s, ids, cat) {
        Some((blocks, s1)) => match take_property_conditions(s1) {
            Some((conditions, ranged, s2)) => match take_nbt_condition(s2) {
                Some((has_nbt, s3)) => match take_matchers(s3, Shape::Component, cat) {
                    Some((exact, s4)) => match take_matchers(s4, Shape::VarInt, cat) {
                        Some((partial, rest)) => if has_nbt || ranged || exact > 0 || partial > 0
                            || blocks.len() == 0 {
                            Some((tags, rest))
                        } else {
                            Some((with_spelled(tags, blocks, 0, conditions), rest))
                        },
                        None => None,
                    },
                    None => None,
                },
                None => None,
            },
            None => None,
        },
        None => None,
    }
}

pub open spec fn take_predicates(tags: Seq<Tag>, n: nat, s: Seq<u8>, ids: &ComposedMappings, cat: &Catalog) -> Option<
    (Seq<Tag>, Seq<u8>),
>
    decreases n,
{
    if n == 0 {
        Some((tags, s))
    } else {
        match take_predicate(tags, s, ids, cat) {
            Some((more, rest)) => take_predicates(more, (n - 1) as nat, rest, ids, cat),
            None => None,
        }
    }
}

/// A list of adventure predicates in the old form.
pub open spec fn predicates_spelled(data: Seq<u8>, ids: &ComposedMappings, cat: &Catalog) -> Option<Seq<Tag>> {
    match wire::take_var_int(data) {
        Some((n, s)) => if n < 0 || n > item_component::MAX_ENTRIES {
            None
        } else {
            match take_predicates(seq![], n as nat, s, ids, cat) {
                Some((tags, rest)) => if rest.len() == 0 {
                    Some(tags)
                } else {
                    None
                },
                None => None,
            }
        },
        None => None,
    }
}

fn find_block_name(id: i32, ids: &ComposedMappings, cat: &Catalog) -> (res: Option<Vec<u8>>)
    requires
        id >= 0,
    ensures
        item_component::same_option(res, block_name(id, ids, cat)),
{
    match ids.blocks.map(id as u32) {
        Some(target) => {
            match ids.blocks.unmap(target) {
                Some(source) => {
                    if source != id as u32 {
                        return None;
                    }
                },
                None => {
                    return None;
                },
            }
            match cat.registry_entry_name(version::V_26_3, "block".as_bytes(), id) {
                Some(name) => Some(text::with_namespace(name)),
                None => None,
            }
        },
        None => None,
    }
}

#[verifier::loop_isolation(false)]
fn read_block_names(n: u32, r: &mut &[u8], ids: &ComposedMappings, cat: &Catalog) -> (res: Result<
    Vec<Vec<u8>>,
    ReadingError,
>)
    ensures
        match take_block_names(seq![], n as nat, old(r)@, ids, cat) {
            Some((names, rest)) => res is Ok && text_views(res->Ok_0@) == names && final(r)@ == rest,
            None => res is Err,
        },
{
    let mut names: Vec<Vec<u8>> = Vec::new();
    let mut left: u32 = n;
    assert(text_views(names@) =~= seq![]);
    while left > 0
        invariant
            take_block_names(seq![], n as nat, old(r)@, ids, cat) == take_block_names(
                text_views(names@),
                left as nat,
                r@,
                ids,
                cat,
            ),
        decreases left,
    {
        let ghost before = text_views(names@);
        let id: i32 = wire::get_var_int(r)?;
        if id < 0 {
            return Err(ReadingError::Malformed);
        }
        if let Some(name) = find_block_name(id, ids, cat) {
            let ghost view = name@;
            names.push(name);
            assert(text_views(names@) =~= before.push(view));
        }
        left = left - 1;
    }
    Ok(names)
}

fn read_blocks(r: &mut &[u8], ids: &ComposedMappings, cat: &Catalog) -> (res: Result<Vec<Vec<u8>>, ReadingError>)
    ensures
        match take_blocks(old(r)@, ids, cat) {
            Some((names, rest)) => res is Ok && text_views(res->Ok_0@) == names && final(r)@ == rest,
            None => res is Err,
        },
{
    let present: bool = wire::get_bool(r)?;
    let mut names: Vec<Vec<u8>> = Vec::new();
    assert(text_views(names@) =~= seq![]);
    if !present {
        return Ok(names);
    }
    let selector: i32 = wire::get_var_int(r)?;
    if selector == 0 {
        let name: &[u8] = wire::get_str(r)?;
        names.push(text::concat("#".as_bytes(), name));
        assert(text_views(names@) =~= seq![wire::key("#") + name@]);
        Ok(names)
    } else if 0 < selector && selector <= 4097 {
        read_block_names((selector - 1) as u32, r, ids, cat)
    } else {
        Err(ReadingError::Malformed)
    }
}

#[verifier::loop_isolation(false)]
fn read_conditions(n: u32, r: &mut &[u8]) -> (res: Result<(Vec<Vec<u8>>, bool), ReadingError>)
    ensures
        match take_conditions(seq![], false, n as nat, old(r)@) {
            Some((conditions, ranged, rest)) => res is Ok && text_views(res->Ok_0.0@) == conditions
                && res->Ok_0.1 == ranged && final(r)@ == rest,
            None => res is Err,
        },
{
    let mut conditions: Vec<Vec<u8>> = Vec::new();
    let mut ranged: bool = false;
    let mut left: u32 = n;
    assert(text_views(conditions@) =~= seq![]);
    while left > 0
        invariant
            take_conditions(seq![], false, n as nat, old(r)@) == take_conditions(
                text_views(conditions@),
                ranged,
                left as nat,
                r@,
            ),
        decreases left,
    {
        let ghost before = text_views(conditions@);
        let name: &[u8] = wire::get_str(r)?;
        let exact: bool = wire::get_bool(r)?;
        if exact {
            let value: &[u8] = wire::get_str(r)?;
            let mut condition: Vec<u8> = text::concat(name, "=".as_bytes());
            wire::write_bytes(&mut condition, value);
            let ghost view = condition@;
            conditions.push(condition);
            assert(text_views(conditions@) =~= before.push(view));
        } else {
            get_opt_str(r)?;
            get_opt_str(r)?;
            ranged = true;
        }
        left = left - 1;
    }
    Ok((conditions, ranged))
}

fn read_property_conditions(r: &mut &[u8]) -> (res: Result<(Vec<Vec<u8>>, bool), ReadingError>)
    ensures
        match take_property_conditions(old(r)@) {
            Some((conditions, ranged, rest)) => res is Ok && text_views(res->Ok_0.0@) == conditions
                && res->Ok_0.1 == ranged && final(r)@ == rest,
            None => res is Err,
        },
{
    let present: bool = wire::get_bool(r)?;
    if !present {
        let none: Vec<Vec<u8>> = Vec::new();
        assert(text_views(none@) =~= seq![]);
        return Ok((none, false));
    }
    let n: i32 = wire::get_var_int(r)?;
    if n < 0 || n > item_component::MAX_ENTRIES {
        return Err(ReadingError::Malformed);
    }
    read_conditions(n as u32, r)
}

fn join(texts: &Vec<Vec<u8>>) -> (res: Vec<u8>)
    ensures
        res@ == joined(text_views(texts@)),
{
    let ghost views = text_views(texts@);
    let mut out: Vec<u8> = Vec::new();
    let mut i: usize = 0;
    assert(views.take(0) =~= seq![]);
    while i < texts.len()
        invariant
            i <= texts.len(),
            views == text_views(texts@),
            out@ == joined(views.take(i as int)),
        decreases texts.len() - i,
    {
        if i > 0 {
            wire::write_bytes(&mut out, ",".as_bytes());
        }
        wire::write_bytes(&mut out, texts[i].as_slice());
        proof {
            let next = views.take(i + 1);
            assert(next.drop_last() =~= views.take(i as int));
            assert(next.last() == views[i as int]);
            assert(out@ =~= joined(next));
        }
        i = i + 1;
    }
    assert(views.take(views.len() as int) =~= views);
    out
}

#[verifier::loop_isolation(false)]
fn push_spelled(tags: &mut Vec<NbtTag>, blocks: &Vec<Vec<u8>>, conditions: &Vec<Vec<u8>>)
    ensures
        nbt::tag_views(final(tags)@) == with_spelled(
            nbt::tag_views(old(tags)@),
            text_views(blocks@),
            0,
            text_views(conditions@),
        ),
{
    let mut i: usize = 0;
    while i < blocks.len()
        invariant
            i <= blocks.len(),
            with_spelled(nbt::tag_views(old(tags)@), text_views(blocks@), 0, text_views(conditions@))
                == with_spelled(
                nbt::tag_views(tags@),
                text_views(blocks@),
                i as int,
                text_views(conditions@),
            ),
        decreases blocks.len() - i,
    {
        let ghost before = nbt::tag_views(tags@);
        let mut value: Vec<u8> = blocks[i].clone();
        if conditions.len() != 0 {
            wire::write_bytes(&mut value, "[".as_bytes());
            let all: Vec<u8> = join(conditions);
            wire::write_bytes(&mut value, all.as_slice());
            wire::write_bytes(&mut value, "]".as_bytes());
        }
        assert(value@ == spelled(blocks@[i as int]@, text_views(conditions@)));
        let tag: NbtTag = nbt::new_string_tag(value.as_slice());
        let ghost view = tag@;
        tags.push(tag);
        assert(nbt::tag_views(tags@) =~= before.push(view));
        i = i + 1;
    }
}

fn read_matchers(r: &mut &[u8], element: Shape, cat: &Catalog) -> (res: Result<i32, ReadingError>)
    ensures
        match take_matchers(old(r)@, element, cat) {
            Some((n, rest)) => res == Ok::<i32, ReadingError>(n) && final(r)@ == rest,
            None => res is Err,
        },
{
    let mut peek: &[u8] = *r;
    let n: i32 = wire::get_var_int(&mut peek)?;
    if n < 0 || n > item_component::MAX_ENTRIES {
        return Err(ReadingError::Malformed);
    }
    shape::skip(&shape::array(element), r, cat, version::V_26_3)?;
    Ok(n)
}

fn read_predicate(tags: &mut Vec<NbtTag>, r: &mut &[u8], ids: &ComposedMappings, cat: &Catalog) -> (res: Result<
    (),
    ReadingError,
>)
    ensures
        match take_predicate(nbt::tag_views(old(tags)@), old(r)@, ids, cat) {
            Some((more, rest)) => res is Ok && nbt::tag_views(final(tags)@) == more && final(r)@ == rest,
            None => res is Err,
        },
{
    proof {
        reveal(take_predicate);
    }
    let blocks: Vec<Vec<u8>> = read_blocks(r, ids, cat)?;
    let (conditions, ranged): (Vec<Vec<u8>>, bool) = read_property_conditions(r)?;
    let has_nbt: bool = wire::get_bool(r)?;
    if has_nbt {
        shape::skip_nbt(r, version::V_26_3)?;
    }
    let exact: i32 = read_matchers(r, Shape::Component, cat)?;
    let partial: i32 = read_matchers(r, Shape::VarInt, cat)?;
    if has_nbt || ranged || exact > 0 || partial > 0 || blocks.len() == 0 {
        return Ok(());
    }
    push_spelled(tags, &blocks, &conditions);
    Ok(())
}

#[verifier::loop_isolation(false)]
fn try_predicates(r: &mut &[u8], ids: &ComposedMappings, cat: &Catalog) -> (res: Result<Vec<NbtTag>, ReadingError>)
    ensures
        match predicates_spelled(old(r)@, ids, cat) {
            Some(tags) => res is Ok && nbt::tag_views(res->Ok_0@) == tags,
            None => res is Err,
        },
{
    let n: i32 = wire::get_var_int(r)?;
    if n < 0 || n > item_component::MAX_ENTRIES {
        return Err(ReadingError::Malformed);
    }
    let ghost start = r@;
    let mut tags: Vec<NbtTag> = Vec::new();
    let mut left: i32 = n;
    assert(nbt::tag_views(tags@) =~= seq![]);
    while left > 0
        invariant
            0 <= left <= n,
            take_predicates(seq![], n as nat, start, ids, cat) == take_predicates(
                nbt::tag_views(tags@),
                left as nat,
                r@,
                ids,
                cat,
            ),
        decreases left,
    {
        read_predicate(&mut tags, r, ids, cat)?;
        left = left - 1;
    }
    if r.len() != 0 {
        return Err(ReadingError::Malformed);
    }
    Ok(tags)
}

pub fn legacy_block_predicates(data: &[u8], ids: &ComposedMappings, cat: &Catalog) -> (res: Option<Vec<NbtTag>>)
    ensures
        nbt::tags_opt(res) == predicates_spelled(data@, ids, cat),
{
    let mut r: &[u8] = data;
    match try_predicates(&mut r, ids, cat) {
        Ok(tags) => Some(tags),
        Err(_) => None,
    }
}

// --- adventure predicates, back from the client --------------------------------------------------------

pub open spec fn byte_from(s: Seq<u8>, wanted: u8, i: int) -> Option<int>
    decreases s.len() - i,
{
    if i < 0 || i >= s.len() {
        None
    } else if s[i] == wanted {
        Some(i)
    } else {
        byte_from(s, wanted, i + 1)
    }
}

/// A text before and behind the first place of a byte.
pub open spec fn split_at(s: Seq<u8>, wanted: u8) -> Option<(Seq<u8>, Seq<u8>)> {
    match byte_from(s, wanted, 0) {
        Some(i) => Some((s.take(i), s.skip(i + 1))),
        None => None,
    }
}

#[verifier::loop_isolation(false)]
pub fn split_once<'a>(s: &'a [u8], wanted: u8) -> (res: Option<(&'a [u8], &'a [u8])>)
    ensures
        match split_at(s@, wanted) {
            Some((a, b)) => res matches Some((x, y)) && x@ == a && y@ == b,
            None => res is None,
        },
        res matches Some((x, y)) ==> x@.len() + 1 + y@.len() == s@.len(),
{
    let mut i: usize = 0;
    while i < s.len()
        invariant
            i <= s.len(),
            byte_from(s@, wanted, 0) == byte_from(s@, wanted, i as int),
        decreases s.len() - i,
    {
        if s[i] == wanted {
            return Some((slice_subrange(s, 0, i), slice_subrange(s, i + 1, s.len())));
        }
        i = i + 1;
    }
    None
}

/// The block and the conditions of a spelled predicate: the conditions stand in
/// square brackets behind the block.
pub open spec fn unspelled(raw: Seq<u8>) -> (Seq<u8>, Option<Seq<u8>>) {
    match split_at(raw, 91) {
        Some((block, state)) => (
            block,
            if state.len() > 0 && state.last() == 93 {
                Some(state.drop_last())
            } else {
                None
            },
        ),
        None => (raw, None),
    }
}

/// The conditions between commas that have an equals sign, written behind
/// `body` and counted.
pub open spec fn conditions_written(state: Seq<u8>, count: nat, body: Seq<u8>) -> (nat, Seq<u8>)
    decreases state.len(),
{
    let (condition, rest) = match split_at(state, 44) {
        Some((condition, rest)) => (condition, Some(rest)),
        None => (state, None),
    };
    let (count, body) = match split_at(condition, 61) {
        Some((name, value)) => (count + 1, body + (wire::enc_str(name) + seq![1u8] + wire::enc_str(value))),
        None => (count, body),
    };
    match rest {
        Some(rest) => if rest.len() < state.len() {
            conditions_written(rest, count, body)
        } else {
            (count, body)
        },
        None => (count, body),
    }
}

/// The conditions of a predicate in the server's layout.
pub open spec fn enc_conditions(state: Option<Seq<u8>>) -> Seq<u8> {
    let (count, body) = match state {
        Some(state) => conditions_written(state, 0, seq![]),
        None => (0nat, seq![]),
    };
    if count == 0 {
        seq![0u8]
    } else {
        seq![1u8] + wire::enc_len(count) + body
    }
}

/// The block set of a spelled predicate: a tag by its name, or one block by its
/// id; nothing for a block that the server does not know.
pub open spec fn enc_block_set(block: Seq<u8>, cat: &Catalog) -> Option<Seq<u8>> {
    if block.len() > 0 && block[0] == 35 {
        Some(wire::enc_var_int(0) + wire::enc_str(block.skip(1)))
    } else {
        match catalog::entry_id(cat, version::V_26_3, wire::key("block"), text::bare(block)) {
            Some(id) => Some(wire::enc_var_int(2) + wire::enc_var_int(id)),
            None => None,
        }
    }
}

/// A spelled predicate in the server's layout, with no NBT condition and no
/// matchers.
pub open spec fn enc_predicate(raw: Seq<u8>, cat: &Catalog) -> Option<Seq<u8>> {
    let (block, state) = unspelled(raw);
    match enc_block_set(block, cat) {
        Some(set) => Some(
            seq![1u8] + set + enc_conditions(state) + seq![0u8] + wire::enc_var_int(0) + wire::enc_var_int(0),
        ),
        None => None,
    }
}

/// The spelled predicates from `i` on, written behind `body` and counted.
pub open spec fn predicates_written(tags: Seq<Tag>, i: int, count: nat, body: Seq<u8>, cat: &Catalog) -> Option<
    (nat, Seq<u8>),
>
    decreases tags.len() - i,
{
    if i < 0 || i >= tags.len() {
        Some((count, body))
    } else {
        match nbt::string_of(tags[i]) {
            Some(raw) => match enc_predicate(raw, cat) {
                Some(bytes) => predicates_written(tags, i + 1, count + 1, body + bytes, cat),
                None => None,
            },
            None => predicates_written(tags, i + 1, count, body, cat),
        }
    }
}

/// A list of spelled predicates in the server's layout; nothing where one of
/// them names a block that the server does not know.
pub open spec fn predicates_native(tags: Seq<Tag>, cat: &Catalog) -> Option<Seq<u8>> {
    match predicates_written(tags, 0, 0, seq![], cat) {
        Some((count, body)) => if count <= i32::MAX {
            Some(wire::enc_len(count) + body)
        } else {
            None
        },
        None => None,
    }
}

#[verifier::loop_isolation(false)]
fn write_conditions(state: Option<&[u8]>) -> (res: Vec<u8>)
    ensures
        res@ == enc_conditions(
            match state {
                Some(state) => Some(state@),
                None => None,
            },
        ),
{
    let mut out: Vec<u8> = Vec::new();
    let mut here: &[u8] = match state {
        Some(state) => state,
        None => {
            out.push(0);
            return out;
        },
    };
    let ghost all = here@;
    let total: usize = here.len();
    let mut body: Vec<u8> = Vec::new();
    let mut count: usize = 0;
    let mut more: bool = true;
    while more
        invariant
            more ==> conditions_written(all, 0, seq![]) == conditions_written(here@, count as nat, body@),
            !more ==> conditions_written(all, 0, seq![]) == (count as nat, body@),
            more ==> count + here@.len() <= total,
        decreases here@.len(), (if more { 1int } else { 0int }),
    {
        let (condition, rest): (&[u8], Option<&[u8]>) = match split_once(here, 44) {
            Some((condition, rest)) => (condition, Some(rest)),
            None => (here, None),
        };
        if let Some((name, value)) = split_once(condition, 61) {
            let mut entry: Vec<u8> = Vec::new();
            wire::write_str(&mut entry, name);
            entry.push(1);
            wire::write_str(&mut entry, value);
            assert(entry@ =~= wire::enc_str(name@) + seq![1u8] + wire::enc_str(value@));
            wire::write_bytes(&mut body, entry.as_slice());
            count = count + 1;
        }
        match rest {
            Some(rest) => {
                here = rest;
            },
            None => {
                more = false;
            },
        }
    }
    if count == 0 {
        out.push(0);
    } else {
        out.push(1);
        wire::write_len(&mut out, count);
        wire::write_bytes(&mut out, body.as_slice());
    }
    out
}


fn write_block_set(block: &[u8], cat: &Catalog) -> (res: Option<Vec<u8>>)
    ensures
        item_component::same_option(res, enc_block_set(block@, cat)),
{
    if block.len() > 0 && block[0] == 35 {
        let mut out: Vec<u8> = wire::var_int_bytes(0);
        let name: &[u8] = slice_subrange(block, 1, block.len());
        assert(name@ =~= block@.skip(1));
        wire::write_str(&mut out, name);
        Some(out)
    } else {
        match cat.registry_entry_id(version::V_26_3, "block".as_bytes(), text::bare_name(block)) {
            Some(id) => {
                let mut out: Vec<u8> = wire::var_int_bytes(2);
                wire::write_var_int(&mut out, id);
                Some(out)
            },
            None => None,
        }
    }
}

fn write_predicate(raw: &[u8], cat: &Catalog) -> (res: Option<Vec<u8>>)
    ensures
        item_component::same_option(res, enc_predicate(raw@, cat)),
{
    let (block, state): (&[u8], Option<&[u8]>) = match split_once(raw, 91) {
        Some((block, state)) => {
            if state.len() > 0 && state[state.len() - 1] == 93 {
                let inner: &[u8] = slice_subrange(state, 0, state.len() - 1);
                assert(inner@ =~= state@.drop_last());
                (block, Some(inner))
            } else {
                (block, None)
            }
        },
        None => (raw, None),
    };
    match write_block_set(block, cat) {
        Some(set) => {
            let mut out: Vec<u8> = Vec::new();
            out.push(1);
            wire::write_bytes(&mut out, set.as_slice());
            assert(out@ =~= seq![1u8] + set@);
            let conditions: Vec<u8> = write_conditions(state);
            wire::write_bytes(&mut out, conditions.as_slice());
            let ghost before = out@;
            out.push(0);
            assert(out@ =~= before + seq![0u8]);
            wire::write_var_int(&mut out, 0);
            wire::write_var_int(&mut out, 0);
            Some(out)
        },
        None => None,
    }
}

#[verifier::loop_isolation(false)]
pub fn legacy_block_predicates_from_nbt(tags: &Vec<NbtTag>, cat: &Catalog) -> (res: Option<Vec<u8>>)
    ensures
        item_component::same_option(res, predicates_native(nbt::tag_views(tags@), cat)),
{
    let mut body: Vec<u8> = Vec::new();
    let mut count: usize = 0;
    let mut i: usize = 0;
    while i < tags.len()
        invariant
            i <= tags.len(),
            count <= i,
            predicates_written(nbt::tag_views(tags@), 0, 0, seq![], cat) == predicates_written(
                nbt::tag_views(tags@),
                i as int,
                count as nat,
                body@,
                cat,
            ),
        decreases tags.len() - i,
    {
        if let Some(raw) = tags[i].extract_string() {
            match write_predicate(raw.as_slice(), cat) {
                Some(bytes) => {
                    wire::write_bytes(&mut body, bytes.as_slice());
                    count = count + 1;
                },
                None => {
                    return None;
                },
            }
        }
        i = i + 1;
    }
    if count as u64 > 0x7fff_ffff {
        return None;
    }
    let mut out: Vec<u8> = Vec::new();
    wire::write_len(&mut out, count);
    wire::write_bytes(&mut out, body.as_slice());
    Some(out)
}

// --- potion effects, back from the client ---------------------------------------------------------------

/// The payload bytes of a compound.
pub open spec fn size(c: Seq<Entry>) -> nat
    decreases c.len(),
{
    if c.len() == 0 {
        0
    } else {
        size(c.drop_last()) + c.last().tag.payload.len()
    }
}

proof fn lemma_size_update(c: Seq<Entry>, i: int, e: Entry)
    requires
        0 <= i < c.len(),
    ensures
        size(c.update(i, e)) == size(c) - c[i].tag.payload.len() + e.tag.payload.len(),
    decreases c.len(),
{
    let d = c.update(i, e);
    if i == c.len() - 1 {
        assert(d.drop_last() =~= c.drop_last());
    } else {
        assert(d.drop_last() =~= c.drop_last().update(i, e));
        lemma_size_update(c.drop_last(), i, e);
    }
}

proof fn lemma_size_index(c: Seq<Entry>, i: int)
    requires
        0 <= i < c.len(),
    ensures
        c[i].tag.payload.len() <= size(c),
    decreases c.len(),
{
    if i < c.len() - 1 {
        lemma_size_index(c.drop_last(), i);
    }
}

proof fn lemma_size_put(c: Seq<Entry>, name: Seq<u8>, tag: Tag)
    ensures
        size(nbt::put(c, name, tag)) <= size(c) + tag.payload.len(),
{
    if nbt::holds(c, name) {
        let i = nbt::position(c, name);
        assert(nbt::is_first(c, name, i));
        lemma_size_update(c, i, Entry { name, tag });
        lemma_size_index(c, i);
    } else {
        assert(c.push(Entry { name, tag }).drop_last() =~= c);
    }
}

proof fn lemma_size_entries(c: Seq<Entry>, s: Seq<u8>)
    ensures
        nbt::take_entries(c, s) matches Some((all, rest)) ==> size(all) + rest.len() < size(c) + s.len(),
    decreases s.len(),
{
    if s.len() > 0 && s[0] != nbt::TAG_END {
        if let Some((name, t)) = nbt::take_text(s.skip(1)) {
            if let Some((tag, rest)) = nbt::take_payload(s[0], t) {
                if rest.len() < s.len() {
                    lemma_size_put(c, name, tag);
                    lemma_size_entries(nbt::put(c, name, tag), rest);
                    nbt::lemma_payload_shorter(s[0], t);
                }
            }
        }
    }
}

/// A compound inside a compound is smaller than it.
pub proof fn lemma_size_inside(c: Seq<Entry>, name: Seq<u8>)
    ensures
        nbt::compound_in(c, name) matches Some(inner) ==> size(inner) < size(c),
{
    if let Some(inner) = nbt::compound_in(c, name) {
        let i = nbt::position(c, name);
        assert(nbt::is_first(c, name, i));
        lemma_size_index(c, i);
        lemma_size_entries(seq![], c[i].tag.payload);
    }
}

/// A number under either of two names.
pub open spec fn number_under(c: Seq<Entry>, upper: Seq<u8>, lower: Seq<u8>) -> i32 {
    let tag = match nbt::get(c, upper) {
        Some(tag) => Some(tag),
        None => nbt::get(c, lower),
    };
    match tag {
        Some(tag) => match nbt::int_like(tag) {
            Some(n) => n,
            None => 0i32,
        },
        None => 0i32,
    }
}

/// A flag under either of two names: a byte, or else a number.
pub open spec fn flag_under(c: Seq<Entry>, upper: Seq<u8>, lower: Seq<u8>) -> bool {
    match nbt::bool_in(c, upper) {
        Some(flag) => flag,
        None => match nbt::bool_in(c, lower) {
            Some(flag) => flag,
            None => number_under(c, upper, lower) != 0,
        },
    }
}

/// The effect that an effect hides.
pub open spec fn hidden_in(c: Seq<Entry>) -> Option<Seq<Entry>> {
    match nbt::compound_in(c, wire::key("HiddenEffect")) {
        Some(hidden) => Some(hidden),
        None => nbt::compound_in(c, wire::key("hidden_effect")),
    }
}

/// The parameters of a client's effect in the server's layout.
pub open spec fn enc_effect(c: Seq<Entry>) -> Seq<u8>
    decreases size(c),
{
    let head = wire::enc_var_int(number_under(c, wire::key("Amplifier"), wire::key("amplifier")))
        + wire::enc_var_int(number_under(c, wire::key("Duration"), wire::key("duration"))) + wire::enc_bool(
        flag_under(c, wire::key("Ambient"), wire::key("ambient")),
    ) + wire::enc_bool(flag_under(c, wire::key("ShowParticles"), wire::key("show_particles")))
        + wire::enc_bool(flag_under(c, wire::key("ShowIcon"), wire::key("show_icon"))) + wire::enc_bool(
        hidden_in(c) is Some,
    );
    match hidden_in(c) {
        Some(hidden) => {
            proof {
                lemma_size_inside(c, wire::key("HiddenEffect"));
                lemma_size_inside(c, wire::key("hidden_effect"));
            }
            head + enc_effect(hidden)
        },
        None => head,
    }
}

fn read_number(c: &NbtCompound, upper: &[u8], lower: &[u8]) -> (res: i32)
    ensures
        res == number_under(c@, upper@, lower@),
{
    let tag: Option<&NbtTag> = match c.get(upper) {
        Some(tag) => Some(tag),
        None => c.get(lower),
    };
    match tag {
        Some(tag) => match tag.extract_int_like() {
            Some(n) => n,
            None => 0,
        },
        None => 0,
    }
}

fn read_flag(c: &NbtCompound, upper: &[u8], lower: &[u8]) -> (res: bool)
    ensures
        res == flag_under(c@, upper@, lower@),
{
    match c.get_bool(upper) {
        Some(flag) => flag,
        None => match c.get_bool(lower) {
            Some(flag) => flag,
            None => read_number(c, upper, lower) != 0,
        },
    }
}

pub fn potion_effect_data_from_nbt(c: &NbtCompound) -> (res: Vec<u8>)
    ensures
        res@ == enc_effect(c@),
    decreases size(c@),
{
    let mut out: Vec<u8> = wire::var_int_bytes(
        read_number(c, "Amplifier".as_bytes(), "amplifier".as_bytes()),
    );
    wire::write_var_int(&mut out, read_number(c, "Duration".as_bytes(), "duration".as_bytes()));
    wire::write_bool(&mut out, read_flag(c, "Ambient".as_bytes(), "ambient".as_bytes()));
    wire::write_bool(&mut out, read_flag(c, "ShowParticles".as_bytes(), "show_particles".as_bytes()));
    wire::write_bool(&mut out, read_flag(c, "ShowIcon".as_bytes(), "show_icon".as_bytes()));
    let hidden: Option<NbtCompound> = match c.get_compound("HiddenEffect".as_bytes()) {
        Some(hidden) => Some(hidden),
        None => c.get_compound("hidden_effect".as_bytes()),
    };
    wire::write_bool(&mut out, hidden.is_some());
    if let Some(hidden) = hidden {
        proof {
            lemma_size_inside(c@, wire::key("HiddenEffect"));
            lemma_size_inside(c@, wire::key("hidden_effect"));
        }
        let more: Vec<u8> = potion_effect_data_from_nbt(&hidden);
        wire::write_bytes(&mut out, more.as_slice());
    }
    out
}

/// The name of a client's effect: spelled out, or by its id in the release.
pub open spec fn effect_name(c: Seq<Entry>, version: Version, cat: &Catalog) -> Option<Seq<u8>> {
    match nbt::string_in(c, wire::key("id")) {
        Some(name) => Some(text::bare(name)),
        None => match nbt::number_in(c, wire::key("Id")) {
            Some(id) => catalog::entry_name(cat, version, wire::key("mob_effect"), id),
            None => None,
        },
    }
}

/// A client's effect in the server's layout; nothing for one that the server
/// does not know.
pub open spec fn effect_native(tag: Tag, version: Version, cat: &Catalog) -> Option<Seq<u8>> {
    match nbt::compound_of(tag) {
        Some(c) => match effect_name(c, version, cat) {
            Some(name) => match catalog::entry_id(cat, version::V_26_3, wire::key("mob_effect"), name) {
                Some(id) => Some(wire::enc_var_int(id) + enc_effect(c)),
                None => None,
            },
            None => None,
        },
        None => None,
    }
}

/// The effects from `i` on that the server knows, written behind `body` and
/// counted.
pub open spec fn effects_native(
    tags: Seq<Tag>,
    i: int,
    count: nat,
    body: Seq<u8>,
    version: Version,
    cat: &Catalog,
) -> (nat, Seq<u8>)
    decreases tags.len() - i,
{
    if i < 0 || i >= tags.len() {
        (count, body)
    } else {
        match effect_native(tags[i], version, cat) {
            Some(bytes) => effects_native(tags, i + 1, count + 1, body + bytes, version, cat),
            None => effects_native(tags, i + 1, count, body, version, cat),
        }
    }
}

pub fn legacy_potion_effect_from_nbt(tag: &NbtTag, version: Version, cat: &Catalog) -> (res: Option<Vec<u8>>)
    ensures
        item_component::same_option(res, effect_native(tag@, version, cat)),
{
    let c: NbtCompound = match tag.extract_compound() {
        Some(c) => c,
        None => {
            return None;
        },
    };
    let id: Option<i32> = match c.get_string("id".as_bytes()) {
        Some(name) => cat.registry_entry_id(
            version::V_26_3,
            "mob_effect".as_bytes(),
            text::bare_name(name.as_slice()),
        ),
        None => match c.get_number("Id".as_bytes()) {
            Some(id) => match cat.registry_entry_name(version, "mob_effect".as_bytes(), id) {
                Some(name) => cat.registry_entry_id(version::V_26_3, "mob_effect".as_bytes(), name),
                None => {
                    return None;
                },
            },
            None => {
                return None;
            },
        },
    };
    match id {
        Some(id) => {
            let mut out: Vec<u8> = wire::var_int_bytes(id);
            let data: Vec<u8> = potion_effect_data_from_nbt(&c);
            wire::write_bytes(&mut out, data.as_slice());
            Some(out)
        },
        None => None,
    }
}

#[verifier::loop_isolation(false)]
fn write_effects(tags: &Vec<NbtTag>, version: Version, cat: &Catalog) -> (res: (usize, Vec<u8>))
    ensures
        (res.0 as nat, res.1@) == effects_native(nbt::tag_views(tags@), 0, 0, seq![], version, cat),
{
    let mut body: Vec<u8> = Vec::new();
    let mut count: usize = 0;
    let mut i: usize = 0;
    while i < tags.len()
        invariant
            i <= tags.len(),
            count <= i,
            effects_native(nbt::tag_views(tags@), 0, 0, seq![], version, cat) == effects_native(
                nbt::tag_views(tags@),
                i as int,
                count as nat,
                body@,
                version,
                cat,
            ),
        decreases tags.len() - i,
    {
        if let Some(bytes) = legacy_potion_effect_from_nbt(&tags[i], version, cat) {
            wire::write_bytes(&mut body, bytes.as_slice());
            count = count + 1;
        }
        i = i + 1;
    }
    (count, body)
}

// --- skull owners, back from the client ------------------------------------------------------------------

pub open spec fn texture_from(tag: Tag) -> Option<PropertyView> {
    match nbt::compound_of(tag) {
        Some(c) => match nbt::string_in(c, wire::key("Value")) {
            Some(value) => Some(
                PropertyView {
                    name: wire::key("textures"),
                    value,
                    signature: nbt::string_in(c, wire::key("Signature")),
                },
            ),
            None => None,
        },
        None => None,
    }
}

pub open spec fn textures_from(tags: Seq<Tag>, i: int, properties: Seq<PropertyView>) -> Seq<PropertyView>
    decreases tags.len() - i,
{
    if i < 0 || i >= tags.len() {
        properties
    } else {
        match texture_from(tags[i]) {
            Some(property) => textures_from(tags, i + 1, properties.push(property)),
            None => textures_from(tags, i + 1, properties),
        }
    }
}

/// The textures of a skull's owner.
pub open spec fn textures_in(c: Seq<Entry>) -> Seq<PropertyView> {
    match nbt::compound_in(c, wire::key("Properties")) {
        Some(properties) => match nbt::list_in(properties, wire::key("textures")) {
            Some(tags) => textures_from(tags, 0, seq![]),
            None => seq![],
        },
        None => seq![],
    }
}

pub open spec fn four_words(words: Option<Seq<i32>>) -> Option<(i32, i32, i32, i32)> {
    match words {
        Some(words) => if words.len() == 4 {
            Some((words[0], words[1], words[2], words[3]))
        } else {
            None
        },
        None => None,
    }
}

/// The profile behind a skull's owner: a name, or a compound; nothing where it
/// says nothing.
pub open spec fn profile_from_owner(owner: Tag) -> Option<ProfileView> {
    let profile = if owner.kind == nbt::TAG_STRING {
        match nbt::string_of(owner) {
            Some(name) => Some(ProfileView { name: Some(name), id: None, properties: seq![] }),
            None => None,
        }
    } else {
        match nbt::compound_of(owner) {
            Some(c) => Some(
                ProfileView {
                    name: nbt::string_in(c, wire::key("Name")),
                    id: four_words(nbt::int_array_in(c, wire::key("Id"))),
                    properties: textures_in(c),
                },
            ),
            None => None,
        }
    };
    match profile {
        Some(p) => if p.name is Some || p.id is Some || p.properties.len() != 0 {
            Some(p)
        } else {
            None
        },
        None => None,
    }
}

fn read_texture(tag: &NbtTag) -> (res: Option<Property>)
    ensures
        match texture_from(tag@) {
            Some(property) => res is Some && res->0@ == property,
            None => res is None,
        },
{
    match tag.extract_compound() {
        Some(c) => match c.get_string("Value".as_bytes()) {
            Some(value) => Some(
                Property {
                    name: slice_to_vec("textures".as_bytes()),
                    value,
                    signature: c.get_string("Signature".as_bytes()),
                },
            ),
            None => None,
        },
        None => None,
    }
}

#[verifier::loop_isolation(false)]
fn read_textures(c: &NbtCompound) -> (res: Vec<Property>)
    ensures
        property_views(res@) == textures_in(c@),
{
    let mut properties: Vec<Property> = Vec::new();
    assert(property_views(properties@) =~= seq![]);
    let inner: NbtCompound = match c.get_compound("Properties".as_bytes()) {
        Some(inner) => inner,
        None => {
            return properties;
        },
    };
    let tags: Vec<NbtTag> = match inner.get_list("textures".as_bytes()) {
        Some(tags) => tags,
        None => {
            return properties;
        },
    };
    let mut i: usize = 0;
    while i < tags.len()
        invariant
            i <= tags.len(),
            textures_from(nbt::tag_views(tags@), 0, seq![]) == textures_from(
                nbt::tag_views(tags@),
                i as int,
                property_views(properties@),
            ),
        decreases tags.len() - i,
    {
        let ghost before = property_views(properties@);
        if let Some(property) = read_texture(&tags[i]) {
            let ghost view = property@;
            properties.push(property);
            assert(property_views(properties@) =~= before.push(view));
        }
        i = i + 1;
    }
    properties
}

pub fn profile_from_skull_owner(owner: &NbtTag) -> (res: Option<Profile>)
    ensures
        same_profile(res, profile_from_owner(owner@)),
{
    if owner.kind == nbt::TAG_STRING {
        return match owner.extract_string() {
            Some(name) => {
                let properties: Vec<Property> = Vec::new();
                assert(property_views(properties@) =~= seq![]);
                Some(Profile { name: Some(name), id: None, properties })
            },
            None => None,
        };
    }
    match owner.extract_compound() {
        Some(c) => {
            let name: Option<Vec<u8>> = c.get_string("Name".as_bytes());
            let id: Option<(i32, i32, i32, i32)> = match c.get_int_array("Id".as_bytes()) {
                Some(words) => if words.len() == 4 {
                    Some((words[0], words[1], words[2], words[3]))
                } else {
                    None
                },
                None => None,
            };
            let properties: Vec<Property> = read_textures(&c);
            if name.is_some() || id.is_some() || properties.len() != 0 {
                Some(Profile { name, id, properties })
            } else {
                None
            }
        },
        None => None,
    }
}


// --- components as NBT ---------------------------------------------------------------------------------

pub open spec fn data_from(added: Seq<Component>, id: i32, i: int) -> Option<Seq<u8>>
    decreases added.len() - i,
{
    if i < 0 || i >= added.len() {
        None
    } else if added[i].id == id {
        Some(added[i].data)
    } else {
        data_from(added, id, i + 1)
    }
}

/// The payload of a component among those of a stack.
pub open spec fn data_of(added: Seq<Component>, component: DataComponent, cat: &Catalog) -> Option<Seq<u8>> {
    data_from(added, catalog::id_of(cat, component), 0)
}

#[verifier::loop_isolation(false)]
pub fn find<'a>(added: &'a Vec<ItemComponent>, component: DataComponent, cat: &Catalog) -> (res: Option<&'a [u8]>)
    ensures
        catalog::same_text(res, data_of(types::component_views(added@), component, cat)),
{
    let id: i32 = cat.component_id(component);
    let ghost views = types::component_views(added@);
    let mut i: usize = 0;
    while i < added.len()
        invariant
            i <= added.len(),
            data_from(views, id, 0) == data_from(views, id, i as int),
        decreases added.len() - i,
    {
        assert(views[i as int] == added@[i as int]@);
        if added[i].id == id {
            return Some(added[i].data.as_slice());
        }
        i = i + 1;
    }
    None
}

/// The tag of a payload that is one tag; none where it cannot be read.
pub open spec fn tag_of(data: Seq<u8>) -> Option<Tag> {
    match nbt::take_nbt(data, false) {
        Some((tag, rest)) => tag,
        None => None,
    }
}

fn nbt_of(data: &[u8]) -> (res: Option<NbtTag>)
    ensures
        nbt::tag_opt(res) == tag_of(data@),
{
    let mut r: &[u8] = data;
    match nbt::get_nbt(&mut r, false) {
        Ok(tag) => tag,
        Err(_) => None,
    }
}

/// Whether `n` ids hold the wanted one; `broken` is the answer where they end
/// early.
pub open spec fn hides(n: nat, s: Seq<u8>, id: i32, broken: bool) -> bool
    decreases n,
{
    if n == 0 {
        false
    } else {
        match wire::take_var_int(s) {
            Some((hidden, rest)) => hidden == id || hides((n - 1) as nat, rest, id, broken),
            None => broken,
        }
    }
}

/// Whether a tooltip display hides a component. One that cannot be read hides
/// everything.
pub open spec fn display_hides(data: Seq<u8>, id: i32, broken: bool) -> bool {
    match wire::take_bool(data) {
        Some((all, s)) => if all {
            true
        } else {
            match wire::take_var_int(s) {
                Some((n, t)) => if n < 0 || n > item_component::MAX_ENTRIES {
                    true
                } else {
                    hides(n as nat, t, id, broken)
                },
                None => true,
            }
        },
        None => true,
    }
}

/// Whether a stack's tooltip display, if it has one, hides a component.
pub open spec fn hidden_in_tooltip(
    added: Seq<Component>,
    component: DataComponent,
    broken: bool,
    cat: &Catalog,
) -> bool {
    match data_of(added, DataComponent::TooltipDisplay, cat) {
        Some(data) => display_hides(data, catalog::id_of(cat, component), broken),
        None => false,
    }
}

#[verifier::loop_isolation(false)]
pub fn component_hidden_in_tooltip(
    added: &Vec<ItemComponent>,
    component: DataComponent,
    broken: bool,
    cat: &Catalog,
) -> (res: bool)
    ensures
        res == hidden_in_tooltip(types::component_views(added@), component, broken, cat),
{
    let mut r: &[u8] = match find(added, DataComponent::TooltipDisplay, cat) {
        Some(data) => data,
        None => {
            return false;
        },
    };
    match wire::get_bool(&mut r) {
        Ok(all) => {
            if all {
                return true;
            }
        },
        Err(_) => {
            return true;
        },
    }
    let n: i32 = match wire::get_var_int(&mut r) {
        Ok(n) => n,
        Err(_) => {
            return true;
        },
    };
    if n < 0 || n > item_component::MAX_ENTRIES {
        return true;
    }
    let id: i32 = cat.component_id(component);
    let ghost start = r@;
    let mut left: i32 = n;
    while left > 0
        invariant
            0 <= left <= n,
            hides(n as nat, start, id, broken) == hides(left as nat, r@, id, broken),
        decreases left,
    {
        match wire::get_var_int(&mut r) {
            Ok(hidden) => {
                if hidden == id {
                    return true;
                }
            },
            Err(_) => {
                return broken;
            },
        }
        left = left - 1;
    }
    false
}

/// A lore line: JSON from 1.14, plain text before.
pub open spec fn lore_text(tag: Option<Tag>, to: &Target) -> Seq<u8> {
    if to.version >= version::V_1_14 {
        target::json_of(to.texts, tag)
    } else {
        target::plain_of(to.texts, tag)
    }
}

/// Up to `n` lore lines, put behind `lines`; the first that cannot be read ends
/// them.
pub open spec fn take_lore(lines: Seq<Tag>, n: nat, s: Seq<u8>, to: &Target) -> Seq<Tag>
    decreases n,
{
    if n == 0 {
        lines
    } else {
        match nbt::take_nbt(s, false) {
            Some((tag, rest)) => take_lore(
                lines.push(nbt::string_tag(lore_text(tag, to))),
                (n - 1) as nat,
                rest,
                to,
            ),
            None => lines,
        }
    }
}

pub open spec fn lore_of(data: Seq<u8>, to: &Target) -> Seq<Tag> {
    match wire::take_var_int(data) {
        Some((n, s)) => take_lore(seq![], shape::times(n), s, to),
        None => seq![],
    }
}

#[verifier::loop_isolation(false)]
fn read_lore(data: &[u8], to: &Target) -> (res: Vec<NbtTag>)
    ensures
        nbt::tag_views(res@) == lore_of(data@, to),
{
    let mut r: &[u8] = data;
    let mut lines: Vec<NbtTag> = Vec::new();
    assert(nbt::tag_views(lines@) =~= seq![]);
    let n: i32 = match wire::get_var_int(&mut r) {
        Ok(n) => n,
        Err(_) => {
            return lines;
        },
    };
    let ghost start = r@;
    let mut left: u32 = if n < 0 { 0 } else { n as u32 };
    while left > 0
        invariant
            take_lore(seq![], shape::times(n), start, to) == take_lore(
                nbt::tag_views(lines@),
                left as nat,
                r@,
                to,
            ),
        decreases left,
    {
        let ghost before = nbt::tag_views(lines@);
        match nbt::get_nbt(&mut r, false) {
            Ok(tag) => {
                let line: Vec<u8> = if to.version >= version::V_1_14 {
                    to.texts.json(&tag)
                } else {
                    to.texts.plain(&tag)
                };
                let line: NbtTag = nbt::new_string_tag(line.as_slice());
                let ghost view = line@;
                lines.push(line);
                assert(nbt::tag_views(lines@) =~= before.push(view));
            },
            Err(_) => {
                return lines;
            },
        }
        left = left - 1;
    }
    lines
}

/// A stack's NBT in the making: its root, its display, its hide flags, and the
/// tooltip lines of enchantments that the client does not know.
#[verifier::ext_equal]
pub struct DraftView {
    pub root: Seq<Entry>,
    pub display: Seq<Entry>,
    pub hide_flags: i32,
    pub lore: Seq<Tag>,
}

pub struct Draft {
    pub root: NbtCompound,
    pub display: NbtCompound,
    pub hide_flags: i32,
    pub lore: Vec<NbtTag>,
}

impl View for Draft {
    type V = DraftView;

    open spec fn view(&self) -> DraftView {
        DraftView {
            root: self.root@,
            display: self.display@,
            hide_flags: self.hide_flags,
            lore: nbt::tag_views(self.lore@),
        }
    }
}

pub open spec fn rooted(d: DraftView, root: Seq<Entry>) -> DraftView {
    DraftView { root, ..d }
}

pub open spec fn displayed(d: DraftView, display: Seq<Entry>) -> DraftView {
    DraftView { display, ..d }
}

/// A VarInt payload put under a name.
pub open spec fn with_var_int(d: DraftView, name: Seq<u8>, data: Seq<u8>) -> DraftView {
    match wire::take_var_int(data) {
        Some((n, rest)) => rooted(d, nbt::put(d.root, name, nbt::int_tag(n))),
        None => d,
    }
}

/// Enchantments put under a name, those that the client does not know left for
/// the tooltip.
pub open spec fn with_enchantments(d: DraftView, name: Seq<u8>, data: Seq<u8>, to: &Target) -> DraftView {
    match pairs_of(data) {
        Some(pairs) => {
            let (tags, lore) = enchantments_split(pairs, 0, seq![], d.lore, to.version, to.cat);
            DraftView {
                root: if tags.len() == 0 {
                    d.root
                } else {
                    nbt::put(d.root, name, nbt::list_tag(tags))
                },
                display: d.display,
                hide_flags: d.hide_flags,
                lore,
            }
        },
        None => d,
    }
}

/// Adventure predicates put under a name, with the flag that hides them.
pub open spec fn with_predicates(
    d: DraftView,
    name: Seq<u8>,
    flag: i32,
    data: Seq<u8>,
    hidden: bool,
    to: &Target,
) -> DraftView {
    match predicates_spelled(data, to.ids, to.cat) {
        Some(tags) => DraftView {
            root: nbt::put(d.root, name, nbt::list_tag(tags)),
            display: d.display,
            hide_flags: if hidden {
                d.hide_flags | flag
            } else {
                d.hide_flags
            },
            lore: d.lore,
        },
        None => d,
    }
}

/// A trim, from 1.20 on: both its parts by name.
pub open spec fn with_trim(d: DraftView, data: Seq<u8>, to: &Target) -> DraftView {
    match wire::take_var_int(data) {
        Some((material, s)) => match wire::take_var_int(s) {
            Some((pattern, rest)) => if to.version < version::V_1_20 || material == i32::MIN || pattern
                == i32::MIN || rest.len() != 0 {
                d
            } else {
                match (
                    catalog::entry_name(
                        to.cat,
                        version::V_26_3,
                        wire::key("trim_material"),
                        (material - 1) as i32,
                    ),
                    catalog::entry_name(
                        to.cat,
                        version::V_26_3,
                        wire::key("trim_pattern"),
                        (pattern - 1) as i32,
                    ),
                ) {
                    (Some(material), Some(pattern)) => rooted(
                        d,
                        nbt::put(
                            d.root,
                            wire::key("Trim"),
                            nbt::compound_tag(
                                nbt::put(
                                    nbt::put(
                                        seq![],
                                        wire::key("material"),
                                        nbt::string_tag(text::namespaced(material)),
                                    ),
                                    wire::key("pattern"),
                                    nbt::string_tag(text::namespaced(pattern)),
                                ),
                            ),
                        ),
                    ),
                    _ => d,
                }
            },
            None => d,
        },
        None => d,
    }
}

/// An instrument by name.
pub open spec fn with_instrument(d: DraftView, data: Seq<u8>, to: &Target) -> DraftView {
    match wire::take_var_int(data) {
        Some((holder, rest)) => if holder == i32::MIN || rest.len() != 0 {
            d
        } else {
            match catalog::entry_name(
                to.cat,
                version::V_26_3,
                wire::key("instrument"),
                (holder - 1) as i32,
            ) {
                Some(name) => rooted(
                    d,
                    nbt::put(d.root, wire::key("instrument"), nbt::string_tag(text::namespaced(name))),
                ),
                None => d,
            }
        },
        None => d,
    }
}

/// A block entity's data behind its type.
pub open spec fn with_block_entity(d: DraftView, data: Seq<u8>) -> DraftView {
    match wire::take_var_int(data) {
        Some((kind, s)) => match tag_of(s) {
            Some(tag) => match nbt::compound_of(tag) {
                Some(c) => rooted(d, nbt::put(d.root, wire::key("BlockEntityTag"), nbt::compound_tag(c))),
                None => d,
            },
            None => d,
        },
        None => d,
    }
}

/// A component that holds no stacks, put into the draft.
pub open spec fn drafted_plain(
    d: DraftView,
    component: DataComponent,
    data: Seq<u8>,
    added: Seq<Component>,
    to: &Target,
) -> DraftView {
    match component {
        DataComponent::Damage => with_var_int(d, wire::key("Damage"), data),
        DataComponent::RepairCost => with_var_int(d, wire::key("RepairCost"), data),
        DataComponent::MapId => with_var_int(d, wire::key("map"), data),
        DataComponent::Unbreakable => rooted(
            d,
            nbt::put(d.root, wire::key("Unbreakable"), nbt::bool_tag(true)),
        ),
        DataComponent::CustomName => displayed(
            d,
            nbt::put(
                d.display,
                wire::key("Name"),
                nbt::string_tag(target::json_of(to.texts, tag_of(data))),
            ),
        ),
        DataComponent::Lore => if lore_of(data, to).len() == 0 {
            d
        } else {
            displayed(d, nbt::put(d.display, wire::key("Lore"), nbt::list_tag(lore_of(data, to))))
        },
        DataComponent::DyedColor => match wire::take_i32(data) {
            Some((color, rest)) => displayed(d, nbt::put(d.display, wire::key("color"), nbt::int_tag(color))),
            None => d,
        },
        DataComponent::Enchantments => with_enchantments(d, wire::key("Enchantments"), data, to),
        DataComponent::StoredEnchantments => with_enchantments(d, wire::key("StoredEnchantments"), data, to),
        DataComponent::CustomModelData => match item_component::model_value(data) {
            Some(value) => rooted(d, nbt::put(d.root, wire::key("CustomModelData"), nbt::int_tag(value))),
            None => d,
        },
        DataComponent::CanPlaceOn => with_predicates(
            d,
            wire::key("CanPlaceOn"),
            16i32,
            data,
            hidden_in_tooltip(added, component, false, to.cat),
            to,
        ),
        DataComponent::CanBreak => with_predicates(
            d,
            wire::key("CanDestroy"),
            8i32,
            data,
            hidden_in_tooltip(added, component, false, to.cat),
            to,
        ),
        DataComponent::PotionContents => rooted(d, with_potion(d.root, data, to.version, to.cat)),
        DataComponent::Profile => match profile_of(data) {
            Some(profile) => match skull_owner(profile, to.version) {
                Some(owner) => rooted(d, nbt::put(d.root, wire::key("SkullOwner"), nbt::compound_tag(owner))),
                None => d,
            },
            None => d,
        },
        DataComponent::BlockEntityData => with_block_entity(d, data),
        DataComponent::Trim => with_trim(d, data, to),
        DataComponent::Instrument => with_instrument(d, data, to),
        DataComponent::WrittenBookContent => rooted(d, with_written_book(d.root, data, to.texts)),
        DataComponent::WritableBookContent => rooted(d, with_writable_book(d.root, data)),
        DataComponent::AttributeModifiers => {
            let tags = attribute_tags(modifiers_of(data), 0, seq![], to.version, to.cat);
            if tags.len() == 0 {
                d
            } else {
                rooted(d, nbt::put(d.root, wire::key("AttributeModifiers"), nbt::list_tag(tags)))
            }
        },
        _ => d,
    }
}

impl Draft {
    fn put_var_int(&mut self, name: &[u8], data: &[u8])
        ensures
            final(self)@ == with_var_int(old(self)@, name@, data@),
    {
        let mut r: &[u8] = data;
        if let Ok(n) = wire::get_var_int(&mut r) {
            self.root.put_int(name, n);
        }
    }

    fn put_enchantments(&mut self, name: &[u8], data: &[u8], to: &Target)
        ensures
            final(self)@ == with_enchantments(old(self)@, name@, data@, to),
    {
        if let Some(pairs) = var_int_pairs(data) {
            let tags: Vec<NbtTag> = legacy_enchantment_list(&pairs, to.version, &mut self.lore, to.cat);
            if tags.len() != 0 {
                self.root.put_list(name, &tags);
            }
        }
    }

    fn put_predicates(&mut self, name: &[u8], flag: i32, data: &[u8], hidden: bool, to: &Target)
        ensures
            final(self)@ == with_predicates(old(self)@, name@, flag, data@, hidden, to),
    {
        if let Some(tags) = legacy_block_predicates(data, to.ids, to.cat) {
            self.root.put_list(name, &tags);
            if hidden {
                self.hide_flags = self.hide_flags | flag;
            }
        }
    }

    fn put_trim(&mut self, data: &[u8], to: &Target)
        ensures
            final(self)@ == with_trim(old(self)@, data@, to),
    {
        let mut r: &[u8] = data;
        let material: i32 = match wire::get_var_int(&mut r) {
            Ok(material) => material,
            Err(_) => {
                return;
            },
        };
        let pattern: i32 = match wire::get_var_int(&mut r) {
            Ok(pattern) => pattern,
            Err(_) => {
                return;
            },
        };
        if to.version < version::V_1_20 || material == i32::MIN || pattern == i32::MIN || r.len() != 0 {
            return;
        }
        if let Some(material) = to.cat.registry_entry_name(
            version::V_26_3,
            "trim_material".as_bytes(),
            material - 1,
        ) {
            if let Some(pattern) = to.cat.registry_entry_name(
                version::V_26_3,
                "trim_pattern".as_bytes(),
                pattern - 1,
            ) {
                let mut trim: NbtCompound = NbtCompound::new();
                trim.put_string("material".as_bytes(), text::with_namespace(material).as_slice());
                trim.put_string("pattern".as_bytes(), text::with_namespace(pattern).as_slice());
                self.root.put_compound("Trim".as_bytes(), &trim);
            }
        }
    }

    fn put_instrument(&mut self, data: &[u8], to: &Target)
        ensures
            final(self)@ == with_instrument(old(self)@, data@, to),
    {
        let mut r: &[u8] = data;
        let holder: i32 = match wire::get_var_int(&mut r) {
            Ok(holder) => holder,
            Err(_) => {
                return;
            },
        };
        if holder == i32::MIN || r.len() != 0 {
            return;
        }
        if let Some(name) = to.cat.registry_entry_name(version::V_26_3, "instrument".as_bytes(), holder - 1) {
            self.root.put_string("instrument".as_bytes(), text::with_namespace(name).as_slice());
        }
    }

    fn put_block_entity(&mut self, data: &[u8])
        ensures
            final(self)@ == with_block_entity(old(self)@, data@),
    {
        let mut r: &[u8] = data;
        if wire::get_var_int(&mut r).is_ok() {
            if let Some(tag) = nbt_of(r) {
                if let Some(c) = tag.extract_compound() {
                    self.root.put_compound("BlockEntityTag".as_bytes(), &c);
                }
            }
        }
    }

    /// Puts a component that holds no stacks into the draft.
    fn put_plain(&mut self, component: DataComponent, data: &[u8], added: &Vec<ItemComponent>, to: &Target)
        ensures
            final(self)@ == drafted_plain(old(self)@, component, data@, types::component_views(added@), to),
    {
        match component {
            DataComponent::Damage => self.put_var_int("Damage".as_bytes(), data),
            DataComponent::RepairCost => self.put_var_int("RepairCost".as_bytes(), data),
            DataComponent::MapId => self.put_var_int("map".as_bytes(), data),
            DataComponent::Unbreakable => self.root.put_bool("Unbreakable".as_bytes(), true),
            DataComponent::CustomName => {
                let name: Vec<u8> = to.texts.json(&nbt_of(data));
                self.display.put_string("Name".as_bytes(), name.as_slice());
            },
            DataComponent::Lore => {
                let lines: Vec<NbtTag> = read_lore(data, to);
                if lines.len() != 0 {
                    self.display.put_list("Lore".as_bytes(), &lines);
                }
            },
            DataComponent::DyedColor => {
                let mut r: &[u8] = data;
                if let Ok(color) = wire::get_i32(&mut r) {
                    self.display.put_int("color".as_bytes(), color);
                }
            },
            DataComponent::Enchantments => self.put_enchantments("Enchantments".as_bytes(), data, to),
            DataComponent::StoredEnchantments => self.put_enchantments(
                "StoredEnchantments".as_bytes(),
                data,
                to,
            ),
            DataComponent::CustomModelData => {
                if let Some(value) = item_component::legacy_custom_model_data(data) {
                    self.root.put_int("CustomModelData".as_bytes(), value);
                }
            },
            DataComponent::CanPlaceOn => {
                let hidden: bool = component_hidden_in_tooltip(added, component, false, to.cat);
                self.put_predicates("CanPlaceOn".as_bytes(), 16, data, hidden, to);
            },
            DataComponent::CanBreak => {
                let hidden: bool = component_hidden_in_tooltip(added, component, false, to.cat);
                self.put_predicates("CanDestroy".as_bytes(), 8, data, hidden, to);
            },
            DataComponent::PotionContents => put_potion(&mut self.root, data, to.version, to.cat),
            DataComponent::Profile => {
                if let Some(profile) = read_profile(data) {
                    if let Some(owner) = legacy_skull_owner(&profile, to.version) {
                        self.root.put_compound("SkullOwner".as_bytes(), &owner);
                    }
                }
            },
            DataComponent::BlockEntityData => self.put_block_entity(data),
            DataComponent::Trim => self.put_trim(data, to),
            DataComponent::Instrument => self.put_instrument(data, to),
            DataComponent::WrittenBookContent => put_written_book(&mut self.root, data, to.texts),
            DataComponent::WritableBookContent => put_writable_book(&mut self.root, data),
            DataComponent::AttributeModifiers => {
                let modifiers: Vec<Modifier> = read_modifiers(data);
                let tags: Vec<NbtTag> = legacy_attribute_list(&modifiers, to.version, to.cat);
                if tags.len() != 0 {
                    self.root.put_list("AttributeModifiers".as_bytes(), &tags);
                }
            },
            _ => {},
        }
    }
}


pub open spec fn item_names_from(rows: Seq<catalog::ItemNames>, version: Version, i: int) -> Option<Seq<Vec<u8>>>
    decreases rows.len() - i,
{
    if i < 0 || i >= rows.len() {
        None
    } else if version < rows[i].until {
        Some(rows[i].names@)
    } else {
        item_names_from(rows, version, i + 1)
    }
}

/// What an item id is called in a release before 1.20.5, with a namespace.
pub open spec fn item_name(cat: &Catalog, id: i32, version: Version) -> Option<Seq<u8>> {
    match item_names_from(cat.items@, version, 0) {
        Some(names) => match catalog::name_at(names, id) {
            Some(name) => Some(
                if name.contains(58u8) {
                    name
                } else {
                    text::namespaced(name)
                },
            ),
            None => None,
        },
        None => None,
    }
}

#[verifier::loop_isolation(false)]
fn legacy_item_name(cat: &Catalog, id: i32, version: Version) -> (res: Option<Vec<u8>>)
    ensures
        item_component::same_option(res, item_name(cat, id, version)),
{
    let mut i: usize = 0;
    while i < cat.items.len()
        invariant
            i <= cat.items.len(),
            item_names_from(cat.items@, version, 0) == item_names_from(cat.items@, version, i as int),
        decreases cat.items.len() - i,
    {
        if version < cat.items[i].until {
            return match catalog::get_name(&cat.items[i].names, id) {
                Some(name) => Some(
                    if text::contains_byte(name, 58) {
                        slice_to_vec(name)
                    } else {
                        text::with_namespace(name)
                    },
                ),
                None => None,
            };
        }
        i = i + 1;
    }
    None
}

/// A count in the byte of the old form.
pub open spec fn count_byte(count: i32) -> u8 {
    if -128 <= count <= 127 {
        low_byte(count)
    } else {
        127
    }
}

/// A stack inside another, as a tag: its name, its count, its slot where it has
/// one, its own NBT. Nothing for an item that the release does not have.
pub open spec fn stack_tag(stack: Stack, slot: Option<u8>, to: &Target) -> Option<Tag>
    decreases stack_weight(stack), 4int, 0nat,
{
    match stack {
        Stack::Structured { count, id, added, removed } => match mapping::mapped(to.ids.items@, id) {
            Some(target_id) => match item_name(to.cat, target_id, to.version) {
                Some(name) => {
                    let named = nbt::put(seq![], wire::key("id"), nbt::string_tag(name));
                    let counted = nbt::put(named, wire::key("Count"), nbt::byte_tag(count_byte(count)));
                    let placed = match slot {
                        Some(slot) => nbt::put(counted, wire::key("Slot"), nbt::byte_tag(slot)),
                        None => counted,
                    };
                    Some(
                        nbt::compound_tag(
                            match nbt_form(added, to) {
                                Some(c) => nbt::put(placed, wire::key("tag"), nbt::compound_tag(c)),
                                None => placed,
                            },
                        ),
                    )
                },
                None => None,
            },
            None => None,
        },
        _ => None,
    }
}

pub open spec fn stack_weight(stack: Stack) -> nat {
    match stack {
        Stack::Structured { added, .. } => types::weight(added),
        _ => 0,
    }
}

/// The stacks from place `index` on as tags behind `tags`. Where places may be
/// empty each has a flag, and a stack keeps its place, which is at most 127.
pub open spec fn take_stack_tags(tags: Seq<Tag>, index: int, n: nat, s: Seq<u8>, optional: bool, to: &Target) -> Option<
    (Seq<Tag>, Seq<u8>),
>
    decreases s.len(), 0int, n,
{
    if n == 0 {
        Some((tags, s))
    } else if optional && s.len() == 0 {
        None
    } else if optional && s[0] == 0 {
        take_stack_tags(tags, index + 1, (n - 1) as nat, s.skip(1), optional, to)
    } else {
        let t = if optional {
            s.skip(1)
        } else {
            s
        };
        match types::take_template(t, to.cat) {
            Some((stack, rest)) => {
                proof {
                    types::lemma_template_weight(t, to.cat);
                }
                if optional && index > 127 {
                    None
                } else {
                    let slot = if optional {
                        Some(index as u8)
                    } else {
                        None
                    };
                    take_stack_tags(
                        match stack_tag(stack, slot, to) {
                            Some(tag) => tags.push(tag),
                            None => tags,
                        },
                        index + 1,
                        (n - 1) as nat,
                        rest,
                        optional,
                        to,
                    )
                }
            },
            None => None,
        }
    }
}

/// A list of stacks as tags, with nothing behind it.
pub open spec fn stack_tags(data: Seq<u8>, optional: bool, to: &Target) -> Option<Seq<Tag>>
    decreases data.len(), 0int, 0nat,
{
    match wire::take_var_int(data) {
        Some((n, s)) => if n < 0 || n > item_component::MAX_ENTRIES {
            None
        } else {
            proof {
                types::lemma_var_int_shorter(data);
            }
            match take_stack_tags(seq![], 0, n as nat, s, optional, to) {
                Some((tags, rest)) => if rest.len() == 0 {
                    Some(tags)
                } else {
                    None
                },
                None => None,
            }
        },
        None => None,
    }
}

/// One component of a stack put into the draft.
pub open spec fn drafted(d: DraftView, added: Seq<Component>, i: int, to: &Target) -> DraftView
    decreases types::weight(added), 1int, 0nat,
{
    if i < 0 || i >= added.len() {
        d
    } else {
        let data = added[i].data;
        proof {
            types::lemma_weight_index(added, i);
        }
        match catalog::component_of(to.cat, added[i].id) {
            Some(DataComponent::ChargedProjectiles) => match stack_tags(data, false, to) {
                Some(tags) => rooted(
                    d,
                    nbt::put(
                        nbt::put(d.root, wire::key("ChargedProjectiles"), nbt::list_tag(tags)),
                        wire::key("Charged"),
                        nbt::bool_tag(tags.len() != 0),
                    ),
                ),
                None => d,
            },
            Some(DataComponent::BundleContents) => match stack_tags(data, false, to) {
                Some(tags) => rooted(d, nbt::put(d.root, wire::key("Items"), nbt::list_tag(tags))),
                None => d,
            },
            Some(DataComponent::Container) => match stack_tags(data, true, to) {
                Some(tags) => {
                    let block_entity = match nbt::compound_in(d.root, wire::key("BlockEntityTag")) {
                        Some(c) => c,
                        None => seq![],
                    };
                    rooted(
                        d,
                        nbt::put(
                            d.root,
                            wire::key("BlockEntityTag"),
                            nbt::compound_tag(nbt::put(block_entity, wire::key("Items"), nbt::list_tag(tags))),
                        ),
                    )
                },
                None => d,
            },
            Some(component) => drafted_plain(d, component, data, added, to),
            None => d,
        }
    }
}

/// The components from `i` on put into the draft, one after the other.
pub open spec fn drafted_from(d: DraftView, added: Seq<Component>, i: int, to: &Target) -> DraftView
    decreases types::weight(added), 2int, (added.len() - i) as nat,
{
    if i < 0 || i >= added.len() {
        d
    } else {
        drafted_from(drafted(d, added, i, to), added, i + 1, to)
    }
}

/// What a draft starts from: the tags that have no component of their own.
pub open spec fn first_draft(added: Seq<Component>, cat: &Catalog) -> DraftView {
    let root = match data_of(added, DataComponent::CustomData, cat) {
        Some(data) => match tag_of(data) {
            Some(tag) => match nbt::compound_of(tag) {
                Some(c) => c,
                None => seq![],
            },
            None => seq![],
        },
        None => seq![],
    };
    DraftView {
        root,
        display: match nbt::compound_in(root, wire::key("display")) {
            Some(c) => c,
            None => seq![],
        },
        hide_flags: match nbt::number_in(root, wire::key("HideFlags")) {
            Some(n) => n,
            None => 0i32,
        },
        lore: seq![],
    }
}

/// A finished draft: tooltip lines before the lore, the display and the hide
/// flags put into the root. Nothing where it says nothing.
pub open spec fn finished(d: DraftView) -> Option<Seq<Entry>> {
    let display = if d.lore.len() == 0 {
        d.display
    } else {
        nbt::put(
            d.display,
            wire::key("Lore"),
            nbt::list_tag(
                d.lore + (match nbt::list_in(d.display, wire::key("Lore")) {
                    Some(tags) => tags,
                    None => seq![],
                }),
            ),
        )
    };
    let shown = if display.len() == 0 {
        d.root
    } else {
        nbt::put(d.root, wire::key("display"), nbt::compound_tag(display))
    };
    let root = if d.hide_flags == 0 {
        shown
    } else {
        nbt::put(shown, wire::key("HideFlags"), nbt::byte_tag(low_byte(d.hide_flags)))
    };
    if root.len() == 0 {
        None
    } else {
        Some(root)
    }
}

/// The NBT of a stack's components for a client before 1.20.5; nothing where
/// none of them can be expressed there.
pub open spec fn nbt_form(added: Seq<Component>, to: &Target) -> Option<Seq<Entry>>
    decreases types::weight(added), 3int, 0nat,
{
    finished(drafted_from(first_draft(added, to.cat), added, 0, to))
}

fn legacy_item_stack_tag(item: &Item, slot: Option<u8>, to: &Target) -> (res: Option<NbtTag>)
    ensures
        nbt::tag_opt(res) == stack_tag(item@, slot, to),
    decreases stack_weight(item@), 4int, 0nat,
{
    match item {
        Item::Structured { count, id, added, removed } => {
            let target_id: i32 = match to.ids.items.map_id(*id) {
                Some(target_id) => target_id,
                None => {
                    return None;
                },
            };
            let name: Vec<u8> = match legacy_item_name(to.cat, target_id, to.version) {
                Some(name) => name,
                None => {
                    return None;
                },
            };
            let mut tag: NbtCompound = NbtCompound::new();
            tag.put_string("id".as_bytes(), name.as_slice());
            let count: u8 = if -128 <= *count && *count <= 127 {
                to_low_byte(*count)
            } else {
                127
            };
            tag.put_byte("Count".as_bytes(), count);
            if let Some(slot) = slot {
                tag.put_byte("Slot".as_bytes(), slot);
            }
            if let Some(c) = components_to_nbt(added, to) {
                tag.put_compound("tag".as_bytes(), &c);
            }
            Some(tag.to_tag())
        },
        _ => None,
    }
}

#[verifier::loop_isolation(false)]
fn try_stack_tags(data: &[u8], optional: bool, to: &Target) -> (res: Result<Vec<NbtTag>, ReadingError>)
    ensures
        match stack_tags(data@, optional, to) {
            Some(tags) => res is Ok && nbt::tag_views(res->Ok_0@) == tags,
            None => res is Err,
        },
    decreases data@.len(), 0int, 0nat,
{
    let mut r: &[u8] = data;
    let n: i32 = wire::get_var_int(&mut r)?;
    if n < 0 || n > item_component::MAX_ENTRIES {
        return Err(ReadingError::Malformed);
    }
    proof {
        types::lemma_var_int_shorter(data@);
    }
    let ghost start = r@;
    let mut tags: Vec<NbtTag> = Vec::new();
    let mut index: i32 = 0;
    assert(nbt::tag_views(tags@) =~= seq![]);
    while index < n
        invariant
            0 <= index <= n,
            r@.len() <= start.len(),
            take_stack_tags(seq![], 0, n as nat, start, optional, to) == take_stack_tags(
                nbt::tag_views(tags@),
                index as int,
                (n - index) as nat,
                r@,
                optional,
                to,
            ),
        decreases n - index,
    {
        let ghost before = nbt::tag_views(tags@);
        if optional {
            let present: bool = wire::get_bool(&mut r)?;
            if !present {
                index = index + 1;
                continue;
            }
        }
        let ghost t = r@;
        let item: Item = types::get_template(&mut r, to.cat)?;
        proof {
            types::lemma_template_weight(t, to.cat);
        }
        let mut slot: Option<u8> = None;
        if optional {
            if index > 127 {
                return Err(ReadingError::Malformed);
            }
            slot = Some(index as u8);
        }
        if let Some(tag) = legacy_item_stack_tag(&item, slot, to) {
            let ghost view = tag@;
            tags.push(tag);
            assert(nbt::tag_views(tags@) =~= before.push(view));
        }
        index = index + 1;
    }
    if r.len() != 0 {
        return Err(ReadingError::Malformed);
    }
    Ok(tags)
}

fn legacy_template_item_list(data: &[u8], optional: bool, to: &Target) -> (res: Option<Vec<NbtTag>>)
    ensures
        nbt::tags_opt(res) == stack_tags(data@, optional, to),
    decreases data@.len(), 0int, 1nat,
{
    match try_stack_tags(data, optional, to) {
        Ok(tags) => Some(tags),
        Err(_) => None,
    }
}

fn draft_component(d: &mut Draft, added: &Vec<ItemComponent>, i: usize, to: &Target)
    requires
        i < added@.len(),
    ensures
        final(d)@ == drafted(old(d)@, types::component_views(added@), i as int, to),
    decreases types::weight(types::component_views(added@)), 1int, 0nat,
{
    proof {
        types::lemma_weight_index(types::component_views(added@), i as int);
        assert(types::component_views(added@)[i as int] == added@[i as int]@);
    }
    let data: &[u8] = added[i].data.as_slice();
    match to.cat.component(added[i].id) {
        Some(DataComponent::ChargedProjectiles) => {
            if let Some(tags) = legacy_template_item_list(data, false, to) {
                d.root.put_list("ChargedProjectiles".as_bytes(), &tags);
                d.root.put_bool("Charged".as_bytes(), tags.len() != 0);
            }
        },
        Some(DataComponent::BundleContents) => {
            if let Some(tags) = legacy_template_item_list(data, false, to) {
                d.root.put_list("Items".as_bytes(), &tags);
            }
        },
        Some(DataComponent::Container) => {
            if let Some(tags) = legacy_template_item_list(data, true, to) {
                let mut block_entity: NbtCompound = match d.root.get_compound("BlockEntityTag".as_bytes()) {
                    Some(c) => c,
                    None => NbtCompound::new(),
                };
                block_entity.put_list("Items".as_bytes(), &tags);
                d.root.put_compound("BlockEntityTag".as_bytes(), &block_entity);
            }
        },
        Some(component) => d.put_plain(component, data, added, to),
        None => {},
    }
}

fn begin_draft(added: &Vec<ItemComponent>, cat: &Catalog) -> (res: Draft)
    ensures
        res@ == first_draft(types::component_views(added@), cat),
{
    let root: NbtCompound = match find(added, DataComponent::CustomData, cat) {
        Some(data) => match nbt_of(data) {
            Some(tag) => match tag.extract_compound() {
                Some(c) => c,
                None => NbtCompound::new(),
            },
            None => NbtCompound::new(),
        },
        None => NbtCompound::new(),
    };
    let display: NbtCompound = match root.get_compound("display".as_bytes()) {
        Some(c) => c,
        None => NbtCompound::new(),
    };
    let hide_flags: i32 = match root.get_number("HideFlags".as_bytes()) {
        Some(n) => n,
        None => 0,
    };
    let lore: Vec<NbtTag> = Vec::new();
    assert(nbt::tag_views(lore@) =~= seq![]);
    Draft { root, display, hide_flags, lore }
}

fn finish_draft(d: Draft) -> (res: Option<NbtCompound>)
    ensures
        nbt::view_opt(res) == finished(d@),
{
    let Draft { root, display, hide_flags, lore } = d;
    let mut root: NbtCompound = root;
    let mut display: NbtCompound = display;
    if lore.len() != 0 {
        let ghost first = nbt::tag_views(lore@);
        let mut lines: Vec<NbtTag> = lore;
        if let Some(more) = display.get_list("Lore".as_bytes()) {
            let mut more: Vec<NbtTag> = more;
            let ghost second = nbt::tag_views(more@);
            lines.append(&mut more);
            assert(nbt::tag_views(lines@) =~= first + second);
        }
        assert(nbt::tag_views(lines@) =~= first + (match nbt::list_in(display@, wire::key("Lore")) {
            Some(tags) => tags,
            None => seq![],
        }));
        display.put_list("Lore".as_bytes(), &lines);
    }
    if !display.is_empty() {
        root.put_compound("display".as_bytes(), &display);
    }
    if hide_flags != 0 {
        root.put_byte("HideFlags".as_bytes(), to_low_byte(hide_flags));
    }
    if root.is_empty() {
        None
    } else {
        Some(root)
    }
}

/// The NBT that a client before 1.20.5 should receive for a stack's components,
/// or nothing where none of them can be expressed there.
pub fn components_to_nbt(added: &Vec<ItemComponent>, to: &Target) -> (res: Option<NbtCompound>)
    ensures
        nbt::view_opt(res) == nbt_form(types::component_views(added@), to),
    decreases types::weight(types::component_views(added@)), 3int, 0nat,
{
    let mut d: Draft = begin_draft(added, to.cat);
    let mut i: usize = 0;
    while i < added.len()
        invariant
            i <= added.len(),
            drafted_from(first_draft(types::component_views(added@), to.cat), types::component_views(added@), 0, to)
                == drafted_from(d@, types::component_views(added@), i as int, to),
        decreases added.len() - i,
    {
        draft_component(&mut d, added, i, to);
        i = i + 1;
    }
    finish_draft(d)
}


// --- NBT as components -----------------------------------------------------------------------------------

/// A component, where it has a payload.
pub open spec fn piece(cat: &Catalog, component: DataComponent, data: Option<Seq<u8>>) -> Seq<Component> {
    match data {
        Some(data) => seq![Component { id: catalog::id_of(cat, component), data }],
        None => seq![],
    }
}

fn push_piece(out: &mut Vec<ItemComponent>, cat: &Catalog, component: DataComponent, data: Option<Vec<u8>>)
    ensures
        types::component_views(final(out)@) == types::component_views(old(out)@) + piece(
            cat,
            component,
            nbt::bytes_opt(data),
        ),
{
    if let Some(data) = data {
        out.push(ItemComponent { id: cat.component_id(component), data });
    }
    assert(types::component_views(out@) =~= types::component_views(old(out)@) + piece(
        cat,
        component,
        nbt::bytes_opt(data),
    ));
}

/// A number under a name, as a VarInt payload.
pub open spec fn var_int_under(c: Seq<Entry>, name: Seq<u8>) -> Option<Seq<u8>> {
    match nbt::number_in(c, name) {
        Some(n) => Some(wire::enc_var_int(n)),
        None => None,
    }
}

fn read_var_int_under(c: &NbtCompound, name: &[u8]) -> (res: Option<Vec<u8>>)
    ensures
        nbt::bytes_opt(res) == var_int_under(c@, name@),
{
    match c.get_number(name) {
        Some(n) => Some(wire::var_int_bytes(n)),
        None => None,
    }
}

pub open spec fn unbreakable_native(c: Seq<Entry>) -> Option<Seq<u8>> {
    match nbt::number_in(c, wire::key("Unbreakable")) {
        Some(n) => if n != 0 {
            Some(seq![])
        } else {
            None
        },
        None => None,
    }
}

fn read_unbreakable(c: &NbtCompound) -> (res: Option<Vec<u8>>)
    ensures
        nbt::bytes_opt(res) == unbreakable_native(c@),
{
    match c.get_number("Unbreakable".as_bytes()) {
        Some(n) => if n != 0 {
            let none: Vec<u8> = Vec::new();
            assert(none@ =~= seq![]);
            Some(none)
        } else {
            None
        },
        None => None,
    }
}

pub open spec fn model_native(c: Seq<Entry>) -> Option<Seq<u8>> {
    match nbt::number_in(c, wire::key("CustomModelData")) {
        Some(value) => Some(item_component::enc_model(value)),
        None => None,
    }
}

fn read_model(c: &NbtCompound) -> (res: Option<Vec<u8>>)
    ensures
        nbt::bytes_opt(res) == model_native(c@),
{
    match c.get_number("CustomModelData".as_bytes()) {
        Some(value) => Some(item_component::model_payload(value)),
        None => None,
    }
}

pub open spec fn predicates_under(c: Seq<Entry>, name: Seq<u8>, cat: &Catalog) -> Option<Seq<u8>> {
    match nbt::list_in(c, name) {
        Some(tags) => predicates_native(tags, cat),
        None => None,
    }
}

fn read_predicates_under(c: &NbtCompound, name: &[u8], cat: &Catalog) -> (res: Option<Vec<u8>>)
    ensures
        nbt::bytes_opt(res) == predicates_under(c@, name@, cat),
{
    match c.get_list(name) {
        Some(tags) => legacy_block_predicates_from_nbt(&tags, cat),
        None => None,
    }
}

pub open spec fn enchantments_under(c: Seq<Entry>, name: Seq<u8>, cat: &Catalog) -> Option<Seq<u8>> {
    match nbt::list_in(c, name) {
        Some(tags) => {
            let pairs = enchantments_from(tags, 0, seq![], cat);
            if pairs.len() == 0 {
                None
            } else {
                Some(enc_count(pairs.len()) + item_component::enc_pairs(pairs))
            }
        },
        None => None,
    }
}

fn read_enchantments_under(c: &NbtCompound, name: &[u8], cat: &Catalog) -> (res: Option<Vec<u8>>)
    ensures
        nbt::bytes_opt(res) == enchantments_under(c@, name@, cat),
{
    match c.get_list(name) {
        Some(tags) => {
            let pairs: Vec<(i32, i32)> = native_enchantment_list(&tags, cat);
            if pairs.len() == 0 {
                return None;
            }
            let mut out: Vec<u8> = Vec::new();
            write_count(&mut out, pairs.len());
            item_component::write_pairs(&mut out, &pairs);
            assert(out@ =~= enc_count(pairs@.len()) + item_component::enc_pairs(pairs@));
            Some(out)
        },
        None => None,
    }
}

/// The potion that a client named.
pub open spec fn potion_id(c: Seq<Entry>, cat: &Catalog) -> Option<i32> {
    match nbt::string_in(c, wire::key("Potion")) {
        Some(name) => catalog::index_of(cat.potions@, text::bare(name)),
        None => None,
    }
}

/// The effects that a client listed, counted and written.
pub open spec fn effects_in(c: Seq<Entry>, version: Version, cat: &Catalog) -> (nat, Seq<u8>) {
    let tags = match nbt::list_in(c, wire::key("CustomPotionEffects")) {
        Some(tags) => Some(tags),
        None => nbt::list_in(c, wire::key("custom_potion_effects")),
    };
    match tags {
        Some(tags) => effects_native(tags, 0, 0, seq![], version, cat),
        None => (0, seq![]),
    }
}

/// A potion in the server's layout, where a client said anything of it: its
/// name, its color, its effects, and no name of its own.
pub open spec fn potion_native(c: Seq<Entry>, version: Version, cat: &Catalog) -> Option<Seq<u8>> {
    let potion = potion_id(c, cat);
    let color = nbt::number_in(c, wire::key("CustomPotionColor"));
    let (count, effects) = effects_in(c, version, cat);
    if potion is None && color is None && count == 0 {
        None
    } else {
        Some(
            (match potion {
                Some(id) => seq![1u8] + wire::enc_var_int(id),
                None => seq![0u8],
            }) + (match color {
                Some(color) => seq![1u8] + wire::enc_i32(color),
                None => seq![0u8],
            }) + enc_count(count) + effects + seq![0u8],
        )
    }
}

fn read_effects(c: &NbtCompound, version: Version, cat: &Catalog) -> (res: (usize, Vec<u8>))
    ensures
        (res.0 as nat, res.1@) == effects_in(c@, version, cat),
{
    let tags: Option<Vec<NbtTag>> = match c.get_list("CustomPotionEffects".as_bytes()) {
        Some(tags) => Some(tags),
        None => c.get_list("custom_potion_effects".as_bytes()),
    };
    match tags {
        Some(tags) => write_effects(&tags, version, cat),
        None => (0, Vec::new()),
    }
}

fn read_potion(c: &NbtCompound, version: Version, cat: &Catalog) -> (res: Option<Vec<u8>>)
    ensures
        nbt::bytes_opt(res) == potion_native(c@, version, cat),
{
    let potion: Option<i32> = match c.get_string("Potion".as_bytes()) {
        Some(name) => catalog::find_name(&cat.potions, text::bare_name(name.as_slice())),
        None => None,
    };
    let color: Option<i32> = c.get_number("CustomPotionColor".as_bytes());
    let (count, effects): (usize, Vec<u8>) = read_effects(c, version, cat);
    if potion.is_none() && color.is_none() && count == 0 {
        return None;
    }
    let mut out: Vec<u8> = Vec::new();
    match potion {
        Some(id) => {
            out.push(1);
            wire::write_var_int(&mut out, id);
        },
        None => {
            out.push(0);
        },
    }
    match color {
        Some(color) => {
            out.push(1);
            wire::write_i32(&mut out, color);
        },
        None => {
            out.push(0);
        },
    }
    assert(out@ =~= (match potion {
        Some(id) => seq![1u8] + wire::enc_var_int(id),
        None => seq![0u8],
    }) + (match color {
        Some(color) => seq![1u8] + wire::enc_i32(color),
        None => seq![0u8],
    }));
    write_count(&mut out, count);
    wire::write_bytes(&mut out, effects.as_slice());
    let ghost before = out@;
    out.push(0);
    assert(out@ =~= before + seq![0u8]);
    Some(out)
}

pub open spec fn profile_native(c: Seq<Entry>) -> Option<Seq<u8>> {
    match nbt::get(c, wire::key("SkullOwner")) {
        Some(owner) => match profile_from_owner(owner) {
            Some(profile) => Some(enc_profile(profile)),
            None => None,
        },
        None => None,
    }
}

fn read_owner(c: &NbtCompound) -> (res: Option<Vec<u8>>)
    ensures
        nbt::bytes_opt(res) == profile_native(c@),
{
    match c.get("SkullOwner".as_bytes()) {
        Some(owner) => match profile_from_skull_owner(owner) {
            Some(profile) => Some(write_profile(&profile)),
            None => None,
        },
        None => None,
    }
}

/// A block entity's data with no type before it.
pub open spec fn block_entity_native(c: Seq<Entry>) -> Option<Seq<u8>> {
    match nbt::compound_in(c, wire::key("BlockEntityTag")) {
        Some(inner) => Some(wire::enc_var_int(0) + nbt::enc_nbt(Some(nbt::compound_tag(inner)), false)),
        None => None,
    }
}

fn read_block_entity(c: &NbtCompound) -> (res: Option<Vec<u8>>)
    ensures
        nbt::bytes_opt(res) == block_entity_native(c@),
{
    match c.get_compound("BlockEntityTag".as_bytes()) {
        Some(inner) => {
            let mut out: Vec<u8> = wire::var_int_bytes(0);
            nbt::write_nbt(&mut out, &inner.to_tag(), false);
            Some(out)
        },
        None => None,
    }
}

/// The server's holder of an entry that a client named under `name`.
pub open spec fn named_holder(c: Seq<Entry>, name: Seq<u8>, registry: Seq<u8>, cat: &Catalog) -> Option<i32> {
    match nbt::string_in(c, name) {
        Some(entry) => item_component::next_int(
            catalog::entry_id(cat, version::V_26_3, registry, text::bare(entry)),
        ),
        None => None,
    }
}

fn read_named_holder(c: &NbtCompound, name: &[u8], registry: &[u8], cat: &Catalog) -> (res: Option<i32>)
    ensures
        res == named_holder(c@, name@, registry@, cat),
{
    match c.get_string(name) {
        Some(entry) => item_component::next(
            cat.registry_entry_id(version::V_26_3, registry, text::bare_name(entry.as_slice())),
        ),
        None => None,
    }
}

pub open spec fn trim_native(c: Seq<Entry>, cat: &Catalog) -> Option<Seq<u8>> {
    match nbt::compound_in(c, wire::key("Trim")) {
        Some(trim) => match named_holder(trim, wire::key("material"), wire::key("trim_material"), cat) {
            Some(material) => match named_holder(trim, wire::key("pattern"), wire::key("trim_pattern"), cat) {
                Some(pattern) => Some(wire::enc_var_int(material) + wire::enc_var_int(pattern)),
                None => None,
            },
            None => None,
        },
        None => None,
    }
}

fn read_trim(c: &NbtCompound, cat: &Catalog) -> (res: Option<Vec<u8>>)
    ensures
        nbt::bytes_opt(res) == trim_native(c@, cat),
{
    match c.get_compound("Trim".as_bytes()) {
        Some(trim) => match read_named_holder(
            &trim,
            "material".as_bytes(),
            "trim_material".as_bytes(),
            cat,
        ) {
            Some(material) => match read_named_holder(
                &trim,
                "pattern".as_bytes(),
                "trim_pattern".as_bytes(),
                cat,
            ) {
                Some(pattern) => {
                    let mut out: Vec<u8> = wire::var_int_bytes(material);
                    wire::write_var_int(&mut out, pattern);
                    Some(out)
                },
                None => None,
            },
            None => None,
        },
        None => None,
    }
}

pub open spec fn instrument_native(c: Seq<Entry>, cat: &Catalog) -> Option<Seq<u8>> {
    match named_holder(c, wire::key("instrument"), wire::key("instrument"), cat) {
        Some(holder) => Some(wire::enc_var_int(holder)),
        None => None,
    }
}

fn read_instrument(c: &NbtCompound, cat: &Catalog) -> (res: Option<Vec<u8>>)
    ensures
        nbt::bytes_opt(res) == instrument_native(c@, cat),
{
    match read_named_holder(c, "instrument".as_bytes(), "instrument".as_bytes(), cat) {
        Some(holder) => Some(wire::var_int_bytes(holder)),
        None => None,
    }
}

/// The texts among tags, from `i` on.
pub open spec fn strings_from(tags: Seq<Tag>, i: int, texts: Seq<Seq<u8>>) -> Seq<Seq<u8>>
    decreases tags.len() - i,
{
    if i < 0 || i >= tags.len() {
        texts
    } else {
        match nbt::string_of(tags[i]) {
            Some(text) => strings_from(tags, i + 1, texts.push(text)),
            None => strings_from(tags, i + 1, texts),
        }
    }
}

/// The texts of a list under a name; none where there is no list.
pub open spec fn strings_under(c: Seq<Entry>, name: Seq<u8>) -> Seq<Seq<u8>> {
    match nbt::list_in(c, name) {
        Some(tags) => strings_from(tags, 0, seq![]),
        None => seq![],
    }
}

#[verifier::loop_isolation(false)]
fn read_strings_under(c: &NbtCompound, name: &[u8]) -> (res: Vec<Vec<u8>>)
    ensures
        text_views(res@) == strings_under(c@, name@),
{
    let mut texts: Vec<Vec<u8>> = Vec::new();
    assert(text_views(texts@) =~= seq![]);
    let tags: Vec<NbtTag> = match c.get_list(name) {
        Some(tags) => tags,
        None => {
            return texts;
        },
    };
    let mut i: usize = 0;
    while i < tags.len()
        invariant
            i <= tags.len(),
            strings_from(nbt::tag_views(tags@), 0, seq![]) == strings_from(
                nbt::tag_views(tags@),
                i as int,
                text_views(texts@),
            ),
        decreases tags.len() - i,
    {
        let ghost before = text_views(texts@);
        if let Some(text) = tags[i].extract_string() {
            let ghost view = text@;
            texts.push(text);
            assert(text_views(texts@) =~= before.push(view));
        }
        i = i + 1;
    }
    texts
}

/// Pages of a written book: each a text without a filtered form.
pub open spec fn enc_written_pages(pages: Seq<Seq<u8>>) -> Seq<u8>
    decreases pages.len(),
{
    if pages.len() == 0 {
        seq![]
    } else {
        enc_written_pages(pages.drop_last()) + (nbt::enc_nbt(Some(nbt::string_tag(pages.last())), false) + seq![
            0u8,
        ])
    }
}

/// Pages of a book that is being written: each a string without a filtered form.
pub open spec fn enc_pages(pages: Seq<Seq<u8>>) -> Seq<u8>
    decreases pages.len(),
{
    if pages.len() == 0 {
        seq![]
    } else {
        enc_pages(pages.drop_last()) + (wire::enc_str(pages.last()) + seq![0u8])
    }
}

/// A book with a title and an author, original and resolved.
pub open spec fn written_book_native(c: Seq<Entry>) -> Option<Seq<u8>> {
    let pages = strings_under(c, wire::key("pages"));
    match (nbt::string_in(c, wire::key("title")), nbt::string_in(c, wire::key("author"))) {
        (Some(title), Some(author)) => if pages.len() == 0 {
            None
        } else {
            Some(
                wire::enc_str(title) + seq![0u8] + wire::enc_str(author) + seq![0u8] + enc_count(pages.len())
                    + enc_written_pages(pages) + seq![1u8],
            )
        },
        _ => None,
    }
}

/// A book without a title or an author.
pub open spec fn writable_book_native(c: Seq<Entry>) -> Option<Seq<u8>> {
    let pages = strings_under(c, wire::key("pages"));
    match (nbt::string_in(c, wire::key("title")), nbt::string_in(c, wire::key("author"))) {
        (Some(title), Some(author)) => None,
        _ => if pages.len() == 0 {
            None
        } else {
            Some(enc_count(pages.len()) + enc_pages(pages))
        },
    }
}

fn write_written_pages(out: &mut Vec<u8>, pages: &Vec<Vec<u8>>)
    ensures
        final(out)@ == old(out)@ + enc_written_pages(text_views(pages@)),
{
    let ghost views = text_views(pages@);
    let mut i: usize = 0;
    assert(views.take(0) =~= seq![]);
    assert(out@ =~= old(out)@ + enc_written_pages(views.take(0)));
    while i < pages.len()
        invariant
            i <= pages.len(),
            views == text_views(pages@),
            out@ == old(out)@ + enc_written_pages(views.take(i as int)),
        decreases pages.len() - i,
    {
        nbt::write_nbt(out, &nbt::new_string_tag(pages[i].as_slice()), false);
        out.push(0);
        proof {
            let next = views.take(i + 1);
            assert(next.drop_last() =~= views.take(i as int));
            assert(next.last() == views[i as int]);
            assert(out@ =~= old(out)@ + enc_written_pages(next));
        }
        i = i + 1;
    }
    assert(views.take(views.len() as int) =~= views);
}

fn write_pages(out: &mut Vec<u8>, pages: &Vec<Vec<u8>>)
    ensures
        final(out)@ == old(out)@ + enc_pages(text_views(pages@)),
{
    let ghost views = text_views(pages@);
    let mut i: usize = 0;
    assert(views.take(0) =~= seq![]);
    assert(out@ =~= old(out)@ + enc_pages(views.take(0)));
    while i < pages.len()
        invariant
            i <= pages.len(),
            views == text_views(pages@),
            out@ == old(out)@ + enc_pages(views.take(i as int)),
        decreases pages.len() - i,
    {
        wire::write_str(out, pages[i].as_slice());
        out.push(0);
        proof {
            let next = views.take(i + 1);
            assert(next.drop_last() =~= views.take(i as int));
            assert(next.last() == views[i as int]);
            assert(out@ =~= old(out)@ + enc_pages(next));
        }
        i = i + 1;
    }
    assert(views.take(views.len() as int) =~= views);
}

fn read_written_book(c: &NbtCompound) -> (res: Option<Vec<u8>>)
    ensures
        nbt::bytes_opt(res) == written_book_native(c@),
{
    let title: Vec<u8> = match c.get_string("title".as_bytes()) {
        Some(title) => title,
        None => {
            return None;
        },
    };
    let author: Vec<u8> = match c.get_string("author".as_bytes()) {
        Some(author) => author,
        None => {
            return None;
        },
    };
    let pages: Vec<Vec<u8>> = read_strings_under(c, "pages".as_bytes());
    if pages.len() == 0 {
        return None;
    }
    let mut out: Vec<u8> = Vec::new();
    wire::write_str(&mut out, title.as_slice());
    out.push(0);
    assert(out@ =~= wire::enc_str(title@) + seq![0u8]);
    wire::write_str(&mut out, author.as_slice());
    let ghost middle = out@;
    out.push(0);
    assert(out@ =~= middle + seq![0u8]);
    write_count(&mut out, pages.len());
    write_written_pages(&mut out, &pages);
    let ghost body = out@;
    out.push(1);
    assert(out@ =~= body + seq![1u8]);
    Some(out)
}

fn read_writable_book(c: &NbtCompound) -> (res: Option<Vec<u8>>)
    ensures
        nbt::bytes_opt(res) == writable_book_native(c@),
{
    if c.get_string("title".as_bytes()).is_some() && c.get_string("author".as_bytes()).is_some() {
        return None;
    }
    let pages: Vec<Vec<u8>> = read_strings_under(c, "pages".as_bytes());
    if pages.len() == 0 {
        return None;
    }
    let mut out: Vec<u8> = Vec::new();
    write_count(&mut out, pages.len());
    write_pages(&mut out, &pages);
    assert(out@ =~= enc_count(text_views(pages@).len()) + enc_pages(text_views(pages@)));
    Some(out)
}

/// The hide flags that a client sent.
pub open spec fn hide_flags_in(c: Seq<Entry>) -> i32 {
    match nbt::number_in(c, wire::key("HideFlags")) {
        Some(n) => n,
        None => 0i32,
    }
}

/// Whether a hide flag stands for a component that is there.
pub open spec fn flag_translated(c: Seq<Entry>, name: Seq<u8>, flag: i32, cat: &Catalog) -> bool {
    predicates_under(c, name, cat) is Some && hide_flags_in(c) & flag != 0
}

/// The components that hide flags hide.
pub open spec fn hidden_native(c: Seq<Entry>, cat: &Catalog) -> Seq<i32> {
    (if flag_translated(c, wire::key("CanPlaceOn"), 16i32, cat) {
        seq![catalog::id_of(cat, DataComponent::CanPlaceOn)]
    } else {
        seq![]
    }) + (if flag_translated(c, wire::key("CanDestroy"), 8i32, cat) {
        seq![catalog::id_of(cat, DataComponent::CanBreak)]
    } else {
        seq![]
    })
}

/// A tooltip display that hides those components and no others.
pub open spec fn tooltip_native(c: Seq<Entry>, cat: &Catalog) -> Option<Seq<u8>> {
    let hidden = hidden_native(c, cat);
    if hidden.len() == 0 {
        None
    } else {
        Some(seq![0u8] + enc_count(hidden.len()) + types::enc_ids(hidden))
    }
}

/// The hide flags that stand for a component.
pub open spec fn translated_flags(c: Seq<Entry>, cat: &Catalog) -> i32 {
    (if flag_translated(c, wire::key("CanPlaceOn"), 16i32, cat) {
        16i32
    } else {
        0i32
    }) | (if flag_translated(c, wire::key("CanDestroy"), 8i32, cat) {
        8i32
    } else {
        0i32
    })
}

fn write_tooltip(hidden: &Vec<i32>) -> (res: Option<Vec<u8>>)
    ensures
        nbt::bytes_opt(res) == (if hidden@.len() == 0 {
            None::<Seq<u8>>
        } else {
            Some(seq![0u8] + enc_count(hidden@.len()) + types::enc_ids(hidden@))
        }),
{
    if hidden.len() == 0 {
        return None;
    }
    let mut out: Vec<u8> = Vec::new();
    out.push(0);
    assert(out@ =~= seq![0u8]);
    write_count(&mut out, hidden.len());
    types::write_ids(&mut out, hidden);
    Some(out)
}

pub open spec fn display_name_native(display: Option<Seq<Entry>>, texts: &Texts) -> Option<Seq<u8>> {
    match display {
        Some(c) => match nbt::string_in(c, wire::key("Name")) {
            Some(name) => Some(target::tag_bytes_of(texts, name)),
            None => None,
        },
        None => None,
    }
}

pub open spec fn enc_parsed(lines: Seq<Seq<u8>>, texts: &Texts) -> Seq<u8>
    decreases lines.len(),
{
    if lines.len() == 0 {
        seq![]
    } else {
        enc_parsed(lines.drop_last(), texts) + target::tag_bytes_of(texts, lines.last())
    }
}

pub open spec fn display_lore_native(display: Option<Seq<Entry>>, texts: &Texts) -> Option<Seq<u8>> {
    match display {
        Some(c) => {
            let lines = strings_under(c, wire::key("Lore"));
            if lines.len() == 0 {
                None
            } else {
                Some(enc_count(lines.len()) + enc_parsed(lines, texts))
            }
        },
        None => None,
    }
}

pub open spec fn display_color_native(display: Option<Seq<Entry>>) -> Option<Seq<u8>> {
    match display {
        Some(c) => match nbt::number_in(c, wire::key("color")) {
            Some(color) => Some(wire::enc_i32(color)),
            None => None,
        },
        None => None,
    }
}

fn read_display_name(display: &Option<NbtCompound>, texts: &Texts) -> (res: Option<Vec<u8>>)
    ensures
        nbt::bytes_opt(res) == display_name_native(nbt::view_opt(*display), texts),
{
    match display {
        Some(c) => match c.get_string("Name".as_bytes()) {
            Some(name) => Some(texts.tag_bytes(name.as_slice())),
            None => None,
        },
        None => None,
    }
}

fn read_display_lore(display: &Option<NbtCompound>, texts: &Texts) -> (res: Option<Vec<u8>>)
    ensures
        nbt::bytes_opt(res) == display_lore_native(nbt::view_opt(*display), texts),
{
    match display {
        Some(c) => {
            let lines: Vec<Vec<u8>> = read_strings_under(c, "Lore".as_bytes());
            if lines.len() == 0 {
                return None;
            }
            let ghost views = text_views(lines@);
            let mut out: Vec<u8> = Vec::new();
            write_count(&mut out, lines.len());
            assert(out@ =~= enc_count(views.len()));
            let ghost head = out@;
            let mut i: usize = 0;
            assert(views.take(0) =~= seq![]);
            assert(out@ =~= head + enc_parsed(views.take(0), texts));
            while i < lines.len()
                invariant
                    i <= lines.len(),
                    views == text_views(lines@),
                    out@ == head + enc_parsed(views.take(i as int), texts),
                decreases lines.len() - i,
            {
                let bytes: Vec<u8> = texts.tag_bytes(lines[i].as_slice());
                wire::write_bytes(&mut out, bytes.as_slice());
                proof {
                    let next = views.take(i + 1);
                    assert(next.drop_last() =~= views.take(i as int));
                    assert(next.last() == views[i as int]);
                    assert(out@ =~= head + enc_parsed(next, texts));
                }
                i = i + 1;
            }
            assert(views.take(views.len() as int) =~= views);
            Some(out)
        },
        None => None,
    }
}

fn read_display_color(display: &Option<NbtCompound>) -> (res: Option<Vec<u8>>)
    ensures
        nbt::bytes_opt(res) == display_color_native(nbt::view_opt(*display)),
{
    match display {
        Some(c) => match c.get_number("color".as_bytes()) {
            Some(color) => {
                let mut out: Vec<u8> = Vec::new();
                wire::write_i32(&mut out, color);
                assert(out@ =~= wire::enc_i32(color));
                Some(out)
            },
            None => None,
        },
        None => None,
    }
}

/// The root tags that become components; all others are kept as custom data.
pub open spec fn is_consumed(name: Seq<u8>) -> bool {
    ||| name == wire::key("BlockEntityTag")
    ||| name == wire::key("CanDestroy")
    ||| name == wire::key("CanPlaceOn")
    ||| name == wire::key("CustomModelData")
    ||| name == wire::key("CustomPotionColor")
    ||| name == wire::key("CustomPotionEffects")
    ||| name == wire::key("custom_potion_effects")
    ||| name == wire::key("Damage")
    ||| name == wire::key("Enchantments")
    ||| name == wire::key("Potion")
    ||| name == wire::key("RepairCost")
    ||| name == wire::key("SkullOwner")
    ||| name == wire::key("StoredEnchantments")
    ||| name == wire::key("Trim")
    ||| name == wire::key("Unbreakable")
    ||| name == wire::key("HideFlags")
    ||| name == wire::key("author")
    ||| name == wire::key("map")
    ||| name == wire::key("pages")
    ||| name == wire::key("resolved")
    ||| name == wire::key("title")
}

fn consumes(name: &[u8]) -> (res: bool)
    ensures
        res == is_consumed(name@),
{
    wire::same_bytes(name, "BlockEntityTag".as_bytes())
        || wire::same_bytes(name, "CanDestroy".as_bytes())
        || wire::same_bytes(name, "CanPlaceOn".as_bytes())
        || wire::same_bytes(name, "CustomModelData".as_bytes())
        || wire::same_bytes(name, "CustomPotionColor".as_bytes())
        || wire::same_bytes(name, "CustomPotionEffects".as_bytes())
        || wire::same_bytes(name, "custom_potion_effects".as_bytes())
        || wire::same_bytes(name, "Damage".as_bytes())
        || wire::same_bytes(name, "Enchantments".as_bytes())
        || wire::same_bytes(name, "Potion".as_bytes())
        || wire::same_bytes(name, "RepairCost".as_bytes())
        || wire::same_bytes(name, "SkullOwner".as_bytes())
        || wire::same_bytes(name, "StoredEnchantments".as_bytes())
        || wire::same_bytes(name, "Trim".as_bytes())
        || wire::same_bytes(name, "Unbreakable".as_bytes())
        || wire::same_bytes(name, "HideFlags".as_bytes())
        || wire::same_bytes(name, "author".as_bytes())
        || wire::same_bytes(name, "map".as_bytes())
        || wire::same_bytes(name, "pages".as_bytes())
        || wire::same_bytes(name, "resolved".as_bytes())
        || wire::same_bytes(name, "title".as_bytes())
}

/// The entries from `i` on that become no component, put on `kept`. An
/// instrument that became one is among those that did.
pub open spec fn kept_from(c: Seq<Entry>, i: int, kept: Seq<Entry>, has_instrument: bool) -> Seq<Entry>
    decreases c.len() - i,
{
    if i < 0 || i >= c.len() {
        kept
    } else if is_consumed(c[i].name) || (has_instrument && c[i].name == wire::key("instrument")) {
        kept_from(c, i + 1, kept, has_instrument)
    } else {
        kept_from(c, i + 1, nbt::put(kept, c[i].name, c[i].tag), has_instrument)
    }
}

/// A display without what became components.
pub open spec fn display_rest(display: Seq<Entry>) -> Seq<Entry> {
    nbt::remove(
        nbt::remove(nbt::remove(display, wire::key("Name")), wire::key("Lore")),
        wire::key("color"),
    )
}

/// What a client sent that has no component: the tags kept as they are, the hide
/// flags that stand for nothing else, the rest of the display.
pub open spec fn custom_entries(c: Seq<Entry>, cat: &Catalog) -> Seq<Entry> {
    let kept = kept_from(c, 0, seq![], instrument_native(c, cat) is Some);
    let flags = hide_flags_in(c) & !translated_flags(c, cat);
    let flagged = if flags != 0 {
        nbt::put(kept, wire::key("HideFlags"), nbt::int_tag(flags))
    } else {
        kept
    };
    match nbt::compound_in(c, wire::key("display")) {
        Some(display) => if display_rest(display).len() != 0 {
            nbt::put(flagged, wire::key("display"), nbt::compound_tag(display_rest(display)))
        } else {
            flagged
        },
        None => flagged,
    }
}

pub open spec fn custom_native(c: Seq<Entry>, cat: &Catalog) -> Option<Seq<u8>> {
    let custom = custom_entries(c, cat);
    if custom.len() == 0 {
        None
    } else {
        Some(nbt::enc_nbt(Some(nbt::compound_tag(custom)), false))
    }
}

#[verifier::loop_isolation(false)]
fn keep_entries(c: &NbtCompound, has_instrument: bool) -> (res: NbtCompound)
    ensures
        res@ == kept_from(c@, 0, seq![], has_instrument),
{
    let mut kept: NbtCompound = NbtCompound::new();
    let mut i: usize = 0;
    while i < c.entries.len()
        invariant
            i <= c.entries.len(),
            kept_from(c@, 0, seq![], has_instrument) == kept_from(c@, i as int, kept@, has_instrument),
        decreases c.entries.len() - i,
    {
        assert(c@[i as int] == c.entries@[i as int]@);
        let name: &[u8] = c.entries[i].name.as_slice();
        if !(consumes(name) || (has_instrument && wire::same_bytes(name, "instrument".as_bytes()))) {
            kept.put(name, c.entries[i].tag.copy());
        }
        i = i + 1;
    }
    kept
}

fn read_custom(
    c: &NbtCompound,
    display: Option<NbtCompound>,
    has_instrument: bool,
    flags: i32,
    cat: &Catalog,
) -> (res: Option<Vec<u8>>)
    requires
        nbt::view_opt(display) == nbt::compound_in(c@, wire::key("display")),
        has_instrument == (instrument_native(c@, cat) is Some),
        flags == hide_flags_in(c@) & !translated_flags(c@, cat),
    ensures
        nbt::bytes_opt(res) == custom_native(c@, cat),
{
    let mut custom: NbtCompound = keep_entries(c, has_instrument);
    if flags != 0 {
        custom.put_int("HideFlags".as_bytes(), flags);
    }
    if let Some(display) = display {
        let mut display: NbtCompound = display;
        display.remove("Name".as_bytes());
        display.remove("Lore".as_bytes());
        display.remove("color".as_bytes());
        if !display.is_empty() {
            custom.put_compound("display".as_bytes(), &display);
        }
    }
    if custom.is_empty() {
        return None;
    }
    let mut out: Vec<u8> = Vec::new();
    nbt::write_nbt(&mut out, &custom.to_tag(), false);
    assert(out@ =~= nbt::enc_nbt(Some(nbt::compound_tag(custom@)), false));
    Some(out)
}

/// The components of a client's item NBT that are plain numbers and lists.
pub open spec fn native_numbers(c: Seq<Entry>, version: Version, cat: &Catalog) -> Seq<Component> {
    piece(cat, DataComponent::Damage, var_int_under(c, wire::key("Damage"))) + piece(
        cat,
        DataComponent::RepairCost,
        var_int_under(c, wire::key("RepairCost")),
    ) + piece(cat, DataComponent::Unbreakable, unbreakable_native(c)) + piece(
        cat,
        DataComponent::CustomModelData,
        model_native(c),
    ) + piece(cat, DataComponent::MapId, var_int_under(c, wire::key("map"))) + piece(
        cat,
        DataComponent::CanPlaceOn,
        predicates_under(c, wire::key("CanPlaceOn"), cat),
    ) + piece(cat, DataComponent::CanBreak, predicates_under(c, wire::key("CanDestroy"), cat)) + piece(
        cat,
        DataComponent::Enchantments,
        enchantments_under(c, wire::key("Enchantments"), cat),
    ) + piece(
        cat,
        DataComponent::StoredEnchantments,
        enchantments_under(c, wire::key("StoredEnchantments"), cat),
    ) + piece(cat, DataComponent::PotionContents, potion_native(c, version, cat))
}

/// The components that a client's item NBT stands for, in the server's layout
/// and in a fixed order.
pub open spec fn native_components(c: Seq<Entry>, version: Version, texts: &Texts, cat: &Catalog) -> Seq<Component> {
    let display = nbt::compound_in(c, wire::key("display"));
    native_numbers(c, version, cat) + piece(cat, DataComponent::Profile, profile_native(c)) + piece(
        cat,
        DataComponent::BlockEntityData,
        block_entity_native(c),
    ) + piece(cat, DataComponent::Trim, trim_native(c, cat)) + piece(
        cat,
        DataComponent::Instrument,
        instrument_native(c, cat),
    ) + piece(cat, DataComponent::WrittenBookContent, written_book_native(c)) + piece(
        cat,
        DataComponent::WritableBookContent,
        writable_book_native(c),
    ) + piece(cat, DataComponent::TooltipDisplay, tooltip_native(c, cat)) + piece(
        cat,
        DataComponent::CustomName,
        display_name_native(display, texts),
    ) + piece(cat, DataComponent::Lore, display_lore_native(display, texts)) + piece(
        cat,
        DataComponent::DyedColor,
        display_color_native(display),
    ) + piece(cat, DataComponent::CustomData, custom_native(c, cat))
}

fn read_numbers(c: &NbtCompound, version: Version, cat: &Catalog) -> (res: Vec<ItemComponent>)
    ensures
        types::component_views(res@) == native_numbers(c@, version, cat),
{
    let mut out: Vec<ItemComponent> = Vec::new();
    assert(types::component_views(out@) =~= seq![]);
    push_piece(&mut out, cat, DataComponent::Damage, read_var_int_under(c, "Damage".as_bytes()));
    assert(types::component_views(out@) =~= piece(
        cat,
        DataComponent::Damage,
        var_int_under(c@, wire::key("Damage")),
    ));
    push_piece(&mut out, cat, DataComponent::RepairCost, read_var_int_under(c, "RepairCost".as_bytes()));
    push_piece(&mut out, cat, DataComponent::Unbreakable, read_unbreakable(c));
    push_piece(&mut out, cat, DataComponent::CustomModelData, read_model(c));
    push_piece(&mut out, cat, DataComponent::MapId, read_var_int_under(c, "map".as_bytes()));
    push_piece(&mut out, cat, DataComponent::CanPlaceOn, read_predicates_under(c, "CanPlaceOn".as_bytes(), cat));
    push_piece(&mut out, cat, DataComponent::CanBreak, read_predicates_under(c, "CanDestroy".as_bytes(), cat));
    push_piece(
        &mut out,
        cat,
        DataComponent::Enchantments,
        read_enchantments_under(c, "Enchantments".as_bytes(), cat),
    );
    push_piece(
        &mut out,
        cat,
        DataComponent::StoredEnchantments,
        read_enchantments_under(c, "StoredEnchantments".as_bytes(), cat),
    );
    push_piece(&mut out, cat, DataComponent::PotionContents, read_potion(c, version, cat));
    out
}

/// The components that a client's item NBT stands for.
pub fn nbt_to_components(c: &NbtCompound, version: Version, texts: &Texts, cat: &Catalog) -> (res: Vec<
    ItemComponent,
>)
    ensures
        types::component_views(res@) == native_components(c@, version, texts, cat),
{
    let mut out: Vec<ItemComponent> = read_numbers(c, version, cat);
    let hide_flags: i32 = match c.get_number("HideFlags".as_bytes()) {
        Some(n) => n,
        None => 0,
    };
    let hides_place: bool = read_predicates_under(c, "CanPlaceOn".as_bytes(), cat).is_some() && hide_flags & 16
        != 0;
    let hides_break: bool = read_predicates_under(c, "CanDestroy".as_bytes(), cat).is_some() && hide_flags & 8
        != 0;
    let mut hidden: Vec<i32> = Vec::new();
    if hides_place {
        hidden.push(cat.component_id(DataComponent::CanPlaceOn));
    }
    if hides_break {
        hidden.push(cat.component_id(DataComponent::CanBreak));
    }
    assert(hidden@ =~= hidden_native(c@, cat));
    let translated: i32 = (if hides_place {
        16
    } else {
        0
    }) | (if hides_break {
        8
    } else {
        0
    });
    push_piece(&mut out, cat, DataComponent::Profile, read_owner(c));
    push_piece(&mut out, cat, DataComponent::BlockEntityData, read_block_entity(c));
    push_piece(&mut out, cat, DataComponent::Trim, read_trim(c, cat));
    let instrument: Option<Vec<u8>> = read_instrument(c, cat);
    let has_instrument: bool = instrument.is_some();
    push_piece(&mut out, cat, DataComponent::Instrument, instrument);
    push_piece(&mut out, cat, DataComponent::WrittenBookContent, read_written_book(c));
    push_piece(&mut out, cat, DataComponent::WritableBookContent, read_writable_book(c));
    push_piece(&mut out, cat, DataComponent::TooltipDisplay, write_tooltip(&hidden));
    let display: Option<NbtCompound> = c.get_compound("display".as_bytes());
    push_piece(&mut out, cat, DataComponent::CustomName, read_display_name(&display, texts));
    push_piece(&mut out, cat, DataComponent::Lore, read_display_lore(&display, texts));
    push_piece(&mut out, cat, DataComponent::DyedColor, read_display_color(&display));
    let flags: i32 = hide_flags & !translated;
    push_piece(&mut out, cat, DataComponent::CustomData, read_custom(c, display, has_instrument, flags, cat));
    out
}

} // verus!
