//! What comes back of a stack's components when a client of the NBT releases sends
//! the stack back.
use vstd::prelude::*;
use crate::catalog;
use crate::catalog::Catalog;
use crate::catalog::DataComponent;
use crate::item;
use crate::item_component;
use crate::item_nbt;
use crate::item_nbt::DraftView;
use crate::nbt;
use crate::nbt::Entry;
use crate::nbt::Tag;
use crate::target::Target;
use crate::target::Texts;
use crate::types;
use crate::types::Component;
use crate::types::Stack;
use crate::version::Version;
use crate::wire;

verus! {

// --- each component from its own tags ----------------------------------------------------------------

/// The payload that a plain tag of a client's item NBT has for a component.
pub open spec fn number_data(c: Seq<Entry>, component: DataComponent) -> Option<Seq<u8>> {
    match component {
        DataComponent::Damage => item_nbt::var_int_under(c, wire::key("Damage")),
        DataComponent::RepairCost => item_nbt::var_int_under(c, wire::key("RepairCost")),
        DataComponent::Unbreakable => item_nbt::unbreakable_native(c),
        DataComponent::CustomModelData => item_nbt::model_native(c),
        DataComponent::MapId => item_nbt::var_int_under(c, wire::key("map")),
        _ => None,
    }
}

/// The component that a payload is found for, behind others.
proof fn lemma_found_behind(added: Seq<Component>, piece: Seq<Component>, id: i32, i: int)
    requires
        0 <= i <= added.len(),
    ensures
        item_nbt::data_from(added + piece, id, i) == (match item_nbt::data_from(added, id, i) {
            Some(data) => Some(data),
            None => item_nbt::data_from(added + piece, id, added.len() as int),
        }),
    decreases added.len() - i,
{
    if i < added.len() {
        assert((added + piece)[i] == added[i]);
        lemma_found_behind(added, piece, id, i + 1);
    }
}

/// A piece adds its own component, where there is none yet, and no other one.
proof fn lemma_piece(
    cat: &Catalog,
    added: Seq<Component>,
    wanted: DataComponent,
    component: DataComponent,
    data: Option<Seq<u8>>,
)
    requires
        catalog::id_of(cat, wanted) != -1,
    ensures
        item_nbt::data_of(added + item_nbt::piece(cat, component, data), wanted, cat) == (match item_nbt::data_of(
            added,
            wanted,
            cat,
        ) {
            Some(found) => Some(found),
            None => if component == wanted {
                data
            } else {
                None
            },
        }),
{
    let id = catalog::id_of(cat, wanted);
    let piece = item_nbt::piece(cat, component, data);
    let all = added + piece;
    let end = added.len() as int;
    lemma_found_behind(added, piece, id, 0);
    if component != wanted {
        catalog::ids_tell_components_apart(cat, wanted, component);
    }
    if data is Some {
        assert(all[end] == piece[0]);
        assert(item_nbt::data_from(all, id, end + 1) is None);
    }
}

/// The pieces of the plain tags.
proof fn lemma_plain_pieces(
    cat: &Catalog,
    wanted: DataComponent,
    d1: Option<Seq<u8>>,
    d2: Option<Seq<u8>>,
    d3: Option<Seq<u8>>,
    d4: Option<Seq<u8>>,
    d5: Option<Seq<u8>>,
    d6: Option<Seq<u8>>,
    d7: Option<Seq<u8>>,
    d8: Option<Seq<u8>>,
    d9: Option<Seq<u8>>,
    d10: Option<Seq<u8>>,
) -> (all: Seq<Component>)
    requires
        catalog::id_of(cat, wanted) != -1,
    ensures
        all == item_nbt::piece(cat, DataComponent::Damage, d1) + item_nbt::piece(cat, DataComponent::RepairCost, d2) + item_nbt::piece(cat, DataComponent::Unbreakable, d3) + item_nbt::piece(cat, DataComponent::CustomModelData, d4) + item_nbt::piece(cat, DataComponent::MapId, d5) + item_nbt::piece(cat, DataComponent::CanPlaceOn, d6) + item_nbt::piece(cat, DataComponent::CanBreak, d7) + item_nbt::piece(cat, DataComponent::Enchantments, d8) + item_nbt::piece(cat, DataComponent::StoredEnchantments, d9) + item_nbt::piece(cat, DataComponent::PotionContents, d10),
        item_nbt::data_of(all, wanted, cat) == (match wanted {
            DataComponent::Damage => d1,
            DataComponent::RepairCost => d2,
            DataComponent::Unbreakable => d3,
            DataComponent::CustomModelData => d4,
            DataComponent::MapId => d5,
            DataComponent::CanPlaceOn => d6,
            DataComponent::CanBreak => d7,
            DataComponent::Enchantments => d8,
            DataComponent::StoredEnchantments => d9,
            DataComponent::PotionContents => d10,
            _ => None,
        }),
{
    let none = Seq::<Component>::empty();
    let a1 = item_nbt::piece(cat, DataComponent::Damage, d1);
    lemma_piece(cat, none, wanted, DataComponent::Damage, d1);
    assert(none + a1 =~= a1);
    let a2 = a1 + item_nbt::piece(cat, DataComponent::RepairCost, d2);
    lemma_piece(cat, a1, wanted, DataComponent::RepairCost, d2);
    let a3 = a2 + item_nbt::piece(cat, DataComponent::Unbreakable, d3);
    lemma_piece(cat, a2, wanted, DataComponent::Unbreakable, d3);
    let a4 = a3 + item_nbt::piece(cat, DataComponent::CustomModelData, d4);
    lemma_piece(cat, a3, wanted, DataComponent::CustomModelData, d4);
    let a5 = a4 + item_nbt::piece(cat, DataComponent::MapId, d5);
    lemma_piece(cat, a4, wanted, DataComponent::MapId, d5);
    let a6 = a5 + item_nbt::piece(cat, DataComponent::CanPlaceOn, d6);
    lemma_piece(cat, a5, wanted, DataComponent::CanPlaceOn, d6);
    let a7 = a6 + item_nbt::piece(cat, DataComponent::CanBreak, d7);
    lemma_piece(cat, a6, wanted, DataComponent::CanBreak, d7);
    let a8 = a7 + item_nbt::piece(cat, DataComponent::Enchantments, d8);
    lemma_piece(cat, a7, wanted, DataComponent::Enchantments, d8);
    let a9 = a8 + item_nbt::piece(cat, DataComponent::StoredEnchantments, d9);
    lemma_piece(cat, a8, wanted, DataComponent::StoredEnchantments, d9);
    let a10 = a9 + item_nbt::piece(cat, DataComponent::PotionContents, d10);
    lemma_piece(cat, a9, wanted, DataComponent::PotionContents, d10);
    a10
}

proof fn lemma_numbers(c: Seq<Entry>, version: Version, cat: &Catalog, wanted: DataComponent)
    requires
        catalog::id_of(cat, wanted) != -1,
        number_data(c, wanted) is Some || wanted == DataComponent::CustomData,
    ensures
        item_nbt::data_of(item_nbt::native_numbers(c, version, cat), wanted, cat) == number_data(c, wanted),
{
    lemma_plain_pieces(
        cat,
        wanted,
        item_nbt::var_int_under(c, wire::key("Damage")),
        item_nbt::var_int_under(c, wire::key("RepairCost")),
        item_nbt::unbreakable_native(c),
        item_nbt::model_native(c),
        item_nbt::var_int_under(c, wire::key("map")),
        item_nbt::predicates_under(c, wire::key("CanPlaceOn"), cat),
        item_nbt::predicates_under(c, wire::key("CanDestroy"), cat),
        item_nbt::enchantments_under(c, wire::key("Enchantments"), cat),
        item_nbt::enchantments_under(c, wire::key("StoredEnchantments"), cat),
        item_nbt::potion_native(c, version, cat),
    );
}

/// The pieces behind the numbers, up to the tooltip.
proof fn lemma_equipment(
    cat: &Catalog,
    added: Seq<Component>,
    wanted: DataComponent,
    d1: Option<Seq<u8>>,
    d2: Option<Seq<u8>>,
    d3: Option<Seq<u8>>,
    d4: Option<Seq<u8>>,
    d5: Option<Seq<u8>>,
    d6: Option<Seq<u8>>,
    d7: Option<Seq<u8>>,
) -> (all: Seq<Component>)
    requires
        catalog::id_of(cat, wanted) != -1,
    ensures
        all == added + item_nbt::piece(cat, DataComponent::Profile, d1) + item_nbt::piece(cat, DataComponent::BlockEntityData, d2) + item_nbt::piece(cat, DataComponent::Trim, d3) + item_nbt::piece(cat, DataComponent::Instrument, d4) + item_nbt::piece(cat, DataComponent::WrittenBookContent, d5) + item_nbt::piece(cat, DataComponent::WritableBookContent, d6) + item_nbt::piece(cat, DataComponent::TooltipDisplay, d7),
        item_nbt::data_of(all, wanted, cat) == (match item_nbt::data_of(added, wanted, cat) {
            Some(found) => Some(found),
            None => match wanted {
                DataComponent::Profile => d1,
                DataComponent::BlockEntityData => d2,
                DataComponent::Trim => d3,
                DataComponent::Instrument => d4,
                DataComponent::WrittenBookContent => d5,
                DataComponent::WritableBookContent => d6,
                DataComponent::TooltipDisplay => d7,
                _ => None,
            },
        }),
{
    let a1 = added + item_nbt::piece(cat, DataComponent::Profile, d1);
    lemma_piece(cat, added, wanted, DataComponent::Profile, d1);
    let a2 = a1 + item_nbt::piece(cat, DataComponent::BlockEntityData, d2);
    lemma_piece(cat, a1, wanted, DataComponent::BlockEntityData, d2);
    let a3 = a2 + item_nbt::piece(cat, DataComponent::Trim, d3);
    lemma_piece(cat, a2, wanted, DataComponent::Trim, d3);
    let a4 = a3 + item_nbt::piece(cat, DataComponent::Instrument, d4);
    lemma_piece(cat, a3, wanted, DataComponent::Instrument, d4);
    let a5 = a4 + item_nbt::piece(cat, DataComponent::WrittenBookContent, d5);
    lemma_piece(cat, a4, wanted, DataComponent::WrittenBookContent, d5);
    let a6 = a5 + item_nbt::piece(cat, DataComponent::WritableBookContent, d6);
    lemma_piece(cat, a5, wanted, DataComponent::WritableBookContent, d6);
    let a7 = a6 + item_nbt::piece(cat, DataComponent::TooltipDisplay, d7);
    lemma_piece(cat, a6, wanted, DataComponent::TooltipDisplay, d7);
    a7
}

/// The pieces behind the tooltip.
proof fn lemma_texts(
    cat: &Catalog,
    added: Seq<Component>,
    wanted: DataComponent,
    d1: Option<Seq<u8>>,
    d2: Option<Seq<u8>>,
    d3: Option<Seq<u8>>,
    d4: Option<Seq<u8>>,
) -> (all: Seq<Component>)
    requires
        catalog::id_of(cat, wanted) != -1,
    ensures
        all == added + item_nbt::piece(cat, DataComponent::CustomName, d1) + item_nbt::piece(cat, DataComponent::Lore, d2) + item_nbt::piece(cat, DataComponent::DyedColor, d3) + item_nbt::piece(cat, DataComponent::CustomData, d4),
        item_nbt::data_of(all, wanted, cat) == (match item_nbt::data_of(added, wanted, cat) {
            Some(found) => Some(found),
            None => match wanted {
                DataComponent::CustomName => d1,
                DataComponent::Lore => d2,
                DataComponent::DyedColor => d3,
                DataComponent::CustomData => d4,
                _ => None,
            },
        }),
{
    let a1 = added + item_nbt::piece(cat, DataComponent::CustomName, d1);
    lemma_piece(cat, added, wanted, DataComponent::CustomName, d1);
    let a2 = a1 + item_nbt::piece(cat, DataComponent::Lore, d2);
    lemma_piece(cat, a1, wanted, DataComponent::Lore, d2);
    let a3 = a2 + item_nbt::piece(cat, DataComponent::DyedColor, d3);
    lemma_piece(cat, a2, wanted, DataComponent::DyedColor, d3);
    let a4 = a3 + item_nbt::piece(cat, DataComponent::CustomData, d4);
    lemma_piece(cat, a3, wanted, DataComponent::CustomData, d4);
    a4
}

/// What the plain tags of a client's NBT have for a component is in the server's stack.
pub proof fn numbers_come_from_their_tags(
    c: Seq<Entry>,
    version: Version,
    texts: &Texts,
    cat: &Catalog,
    wanted: DataComponent,
)
    requires
        catalog::id_of(cat, wanted) != -1,
        number_data(c, wanted) is Some,
    ensures
        item_nbt::data_of(item_nbt::native_components(c, version, texts, cat), wanted, cat) == number_data(c, wanted),
{
    let display = nbt::compound_in(c, wire::key("display"));
    lemma_numbers(c, version, cat, wanted);
    let equipment = lemma_equipment(
        cat,
        item_nbt::native_numbers(c, version, cat),
        wanted,
        item_nbt::profile_native(c),
        item_nbt::block_entity_native(c),
        item_nbt::trim_native(c, cat),
        item_nbt::instrument_native(c, cat),
        item_nbt::written_book_native(c),
        item_nbt::writable_book_native(c),
        item_nbt::tooltip_native(c, cat),
    );
    lemma_texts(
        cat,
        equipment,
        wanted,
        item_nbt::display_name_native(display, texts),
        item_nbt::display_lore_native(display, texts),
        item_nbt::display_color_native(display),
        item_nbt::custom_native(c, cat),
    );
}

proof fn lemma_any_number(c: Seq<Entry>, version: Version, cat: &Catalog, wanted: DataComponent)
    requires
        catalog::id_of(cat, wanted) != -1,
    ensures
        item_nbt::data_of(item_nbt::native_numbers(c, version, cat), wanted, cat) == (match wanted {
            DataComponent::CanPlaceOn => item_nbt::predicates_under(c, wire::key("CanPlaceOn"), cat),
            DataComponent::CanBreak => item_nbt::predicates_under(c, wire::key("CanDestroy"), cat),
            DataComponent::Enchantments => item_nbt::enchantments_under(c, wire::key("Enchantments"), cat),
            DataComponent::StoredEnchantments => item_nbt::enchantments_under(
                c,
                wire::key("StoredEnchantments"),
                cat,
            ),
            DataComponent::PotionContents => item_nbt::potion_native(c, version, cat),
            _ => number_data(c, wanted),
        }),
{
    lemma_plain_pieces(
        cat,
        wanted,
        item_nbt::var_int_under(c, wire::key("Damage")),
        item_nbt::var_int_under(c, wire::key("RepairCost")),
        item_nbt::unbreakable_native(c),
        item_nbt::model_native(c),
        item_nbt::var_int_under(c, wire::key("map")),
        item_nbt::predicates_under(c, wire::key("CanPlaceOn"), cat),
        item_nbt::predicates_under(c, wire::key("CanDestroy"), cat),
        item_nbt::enchantments_under(c, wire::key("Enchantments"), cat),
        item_nbt::enchantments_under(c, wire::key("StoredEnchantments"), cat),
        item_nbt::potion_native(c, version, cat),
    );
}

/// The pieces behind the numbers.
proof fn lemma_behind_numbers(
    cat: &Catalog,
    numbers: Seq<Component>,
    wanted: DataComponent,
    d1: Option<Seq<u8>>,
    d2: Option<Seq<u8>>,
    d3: Option<Seq<u8>>,
    d4: Option<Seq<u8>>,
    d5: Option<Seq<u8>>,
    d6: Option<Seq<u8>>,
    d7: Option<Seq<u8>>,
    d8: Option<Seq<u8>>,
    d9: Option<Seq<u8>>,
    d10: Option<Seq<u8>>,
    d11: Option<Seq<u8>>,
)
    requires
        catalog::id_of(cat, wanted) != -1,
    ensures
        item_nbt::data_of(numbers + item_nbt::piece(cat, DataComponent::Profile, d1) + item_nbt::piece(cat, DataComponent::BlockEntityData, d2) + item_nbt::piece(cat, DataComponent::Trim, d3) + item_nbt::piece(cat, DataComponent::Instrument, d4) + item_nbt::piece(cat, DataComponent::WrittenBookContent, d5) + item_nbt::piece(cat, DataComponent::WritableBookContent, d6) + item_nbt::piece(cat, DataComponent::TooltipDisplay, d7) + item_nbt::piece(cat, DataComponent::CustomName, d8) + item_nbt::piece(cat, DataComponent::Lore, d9) + item_nbt::piece(cat, DataComponent::DyedColor, d10) + item_nbt::piece(cat, DataComponent::CustomData, d11), wanted, cat) == (match item_nbt::data_of(numbers, wanted, cat) {
            Some(found) => Some(found),
            None => match wanted {
                DataComponent::Profile => d1,
                DataComponent::BlockEntityData => d2,
                DataComponent::Trim => d3,
                DataComponent::Instrument => d4,
                DataComponent::WrittenBookContent => d5,
                DataComponent::WritableBookContent => d6,
                DataComponent::TooltipDisplay => d7,
                DataComponent::CustomName => d8,
                DataComponent::Lore => d9,
                DataComponent::DyedColor => d10,
                DataComponent::CustomData => d11,
                _ => None,
            },
        }),
{
    let equipment = lemma_equipment(cat, numbers, wanted, d1, d2, d3, d4, d5, d6, d7);
    lemma_texts(cat, equipment, wanted, d8, d9, d10, d11);
}

/// What a component of the server's stack is made of.
proof fn lemma_source(c: Seq<Entry>, version: Version, texts: &Texts, cat: &Catalog, wanted: DataComponent)
    requires
        catalog::id_of(cat, wanted) != -1,
    ensures
        ({
            let display = nbt::compound_in(c, wire::key("display"));
            item_nbt::data_of(item_nbt::native_components(c, version, texts, cat), wanted, cat) == (match item_nbt::data_of(
                item_nbt::native_numbers(c, version, cat),
                wanted,
                cat,
            ) {
                Some(found) => Some(found),
                None => match wanted {
                    DataComponent::Profile => item_nbt::profile_native(c),
                    DataComponent::BlockEntityData => item_nbt::block_entity_native(c),
                    DataComponent::Trim => item_nbt::trim_native(c, cat),
                    DataComponent::Instrument => item_nbt::instrument_native(c, cat),
                    DataComponent::WrittenBookContent => item_nbt::written_book_native(c),
                    DataComponent::WritableBookContent => item_nbt::writable_book_native(c),
                    DataComponent::TooltipDisplay => item_nbt::tooltip_native(c, cat),
                    DataComponent::CustomName => item_nbt::display_name_native(display, texts),
                    DataComponent::Lore => item_nbt::display_lore_native(display, texts),
                    DataComponent::DyedColor => item_nbt::display_color_native(display),
                    DataComponent::CustomData => item_nbt::custom_native(c, cat),
                    _ => None,
                },
            })
        }),
{
    let display = nbt::compound_in(c, wire::key("display"));
    lemma_behind_numbers(
        cat,
        item_nbt::native_numbers(c, version, cat),
        wanted,
        item_nbt::profile_native(c),
        item_nbt::block_entity_native(c),
        item_nbt::trim_native(c, cat),
        item_nbt::instrument_native(c, cat),
        item_nbt::written_book_native(c),
        item_nbt::writable_book_native(c),
        item_nbt::tooltip_native(c, cat),
        item_nbt::display_name_native(display, texts),
        item_nbt::display_lore_native(display, texts),
        item_nbt::display_color_native(display),
        item_nbt::custom_native(c, cat),
    );
}

pub proof fn lemma_trims_read(c: Seq<Entry>, version: Version, texts: &Texts, cat: &Catalog)
    requires
        catalog::id_of(cat, DataComponent::Trim) != -1,
    ensures
        item_nbt::data_of(
            item_nbt::native_components(c, version, texts, cat),
            DataComponent::Trim,
            cat,
        ) == item_nbt::trim_native(c, cat),
{
    lemma_any_number(c, version, cat, DataComponent::Trim);
    lemma_source(c, version, texts, cat, DataComponent::Trim);
}

pub proof fn lemma_written_books_read(c: Seq<Entry>, version: Version, texts: &Texts, cat: &Catalog)
    requires
        catalog::id_of(cat, DataComponent::WrittenBookContent) != -1,
    ensures
        item_nbt::data_of(
            item_nbt::native_components(c, version, texts, cat),
            DataComponent::WrittenBookContent,
            cat,
        ) == item_nbt::written_book_native(c),
{
    lemma_any_number(c, version, cat, DataComponent::WrittenBookContent);
    lemma_source(c, version, texts, cat, DataComponent::WrittenBookContent);
}

pub proof fn lemma_enchantments_read(c: Seq<Entry>, version: Version, texts: &Texts, cat: &Catalog)
    requires
        catalog::id_of(cat, DataComponent::Enchantments) != -1,
    ensures
        item_nbt::data_of(
            item_nbt::native_components(c, version, texts, cat),
            DataComponent::Enchantments,
            cat,
        ) == item_nbt::enchantments_under(c, wire::key("Enchantments"), cat),
{
    lemma_any_number(c, version, cat, DataComponent::Enchantments);
    lemma_source(c, version, texts, cat, DataComponent::Enchantments);
}

proof fn lemma_custom_data(c: Seq<Entry>, version: Version, texts: &Texts, cat: &Catalog)
    requires
        catalog::id_of(cat, DataComponent::CustomData) != -1,
    ensures
        item_nbt::data_of(
            item_nbt::native_components(c, version, texts, cat),
            DataComponent::CustomData,
            cat,
        ) == item_nbt::custom_native(c, cat),
{
    let display = nbt::compound_in(c, wire::key("display"));
    lemma_numbers(c, version, cat, DataComponent::CustomData);
    let equipment = lemma_equipment(
        cat,
        item_nbt::native_numbers(c, version, cat),
        DataComponent::CustomData,
        item_nbt::profile_native(c),
        item_nbt::block_entity_native(c),
        item_nbt::trim_native(c, cat),
        item_nbt::instrument_native(c, cat),
        item_nbt::written_book_native(c),
        item_nbt::writable_book_native(c),
        item_nbt::tooltip_native(c, cat),
    );
    lemma_texts(
        cat,
        equipment,
        DataComponent::CustomData,
        item_nbt::display_name_native(display, texts),
        item_nbt::display_lore_native(display, texts),
        item_nbt::display_color_native(display),
        item_nbt::custom_native(c, cat),
    );
}

// --- what is kept ------------------------------------------------------------------------------------

/// Whether a tag of an item's NBT is only carried along: nothing else is made of it.
pub open spec fn is_carried(name: Seq<u8>) -> bool {
    !item_nbt::is_consumed(name) && name != wire::key("instrument") && name != wire::key("display")
}

proof fn lemma_kept(c: Seq<Entry>, i: int, kept: Seq<Entry>, has_instrument: bool, k: int)
    requires
        nbt::is_compound(c),
        nbt::is_compound(kept),
        0 <= i <= c.len(),
        0 <= k < c.len(),
        is_carried(c[k].name),
        k < i ==> nbt::get(kept, c[k].name) == Some(c[k].tag),
    ensures
        nbt::is_compound(item_nbt::kept_from(c, i, kept, has_instrument)),
        nbt::get(item_nbt::kept_from(c, i, kept, has_instrument), c[k].name) == Some(c[k].tag),
    decreases c.len() - i,
{
    if i < c.len() {
        let name = c[i].name;
        if item_nbt::is_consumed(name) || (has_instrument && name == wire::key("instrument")) {
            lemma_kept(c, i + 1, kept, has_instrument, k);
        } else {
            nbt::puts_keep_compounds(kept, name, c[i].tag);
            if i == k {
                nbt::put_entries_are_found(kept, name, c[i].tag);
            } else {
                assert(c[i].name != c[k].name);
                nbt::put_entries_leave_the_rest(kept, name, c[i].tag, c[k].name);
            }
            lemma_kept(c, i + 1, nbt::put(kept, name, c[i].tag), has_instrument, k);
        }
    }
}

proof fn lemma_custom_entries(c: Seq<Entry>, cat: &Catalog, k: int)
    requires
        nbt::is_compound(c),
        0 <= k < c.len(),
        is_carried(c[k].name),
    ensures
        nbt::is_compound(item_nbt::custom_entries(c, cat)),
        nbt::get(item_nbt::custom_entries(c, cat), c[k].name) == Some(c[k].tag),
{
    let kept = item_nbt::kept_from(c, 0, seq![], item_nbt::instrument_native(c, cat) is Some);
    lemma_kept(c, 0, seq![], item_nbt::instrument_native(c, cat) is Some, k);
    let flags = item_nbt::hide_flags_in(c) & !item_nbt::translated_flags(c, cat);
    let hide = wire::key("HideFlags");
    let flagged = if flags != 0 {
        nbt::put(kept, hide, nbt::int_tag(flags))
    } else {
        kept
    };
    lemma_kept_names();
    nbt::plain_tags_are_whole(flags, seq![], seq![]);
    nbt::puts_keep_compounds(kept, hide, nbt::int_tag(flags));
    nbt::put_entries_leave_the_rest(kept, hide, nbt::int_tag(flags), c[k].name);
    let shown = wire::key("display");
    if let Some(display) = nbt::compound_in(c, shown) {
        let rest = item_nbt::display_rest(display);
        nbt::read_compounds_can_be_written(nbt::get(c, shown).unwrap());
        let unnamed = nbt::remove(display, wire::key("Name"));
        nbt::removals_keep_compounds(display, wire::key("Name"));
        nbt::removals_keep_compounds(unnamed, wire::key("Lore"));
        nbt::removals_keep_compounds(nbt::remove(unnamed, wire::key("Lore")), wire::key("color"));
        nbt::compounds_read_back(rest);
        nbt::puts_keep_compounds(flagged, shown, nbt::compound_tag(rest));
        nbt::put_entries_leave_the_rest(flagged, shown, nbt::compound_tag(rest), c[k].name);
    }
}

proof fn lemma_kept_names()
    ensures
        wire::key("HideFlags").len() == 9,
        wire::key("display").len() == 7,
{
    reveal_strlit("HideFlags");
    reveal_strlit("display");
    vstd::utf8::is_ascii_chars_encode_utf8("HideFlags"@);
    vstd::utf8::is_ascii_chars_encode_utf8("display"@);
}

/// A tag of a client's item NBT that no component stands for is found again in the
/// custom data of the server's stack, as it was.
pub proof fn carried_tags_are_kept(
    c: Seq<Entry>,
    name: Seq<u8>,
    version: Version,
    texts: &Texts,
    cat: &Catalog,
)
    requires
        nbt::is_compound(c),
        nbt::holds(c, name),
        is_carried(name),
        catalog::id_of(cat, DataComponent::CustomData) != -1,
    ensures
        item_nbt::data_of(item_nbt::native_components(c, version, texts, cat), DataComponent::CustomData, cat) == Some(
            nbt::enc_nbt(Some(nbt::compound_tag(item_nbt::custom_entries(c, cat))), false),
        ),
        nbt::is_compound(item_nbt::custom_entries(c, cat)),
        nbt::get(item_nbt::custom_entries(c, cat), name) == nbt::get(c, name),
{
    let k = nbt::position(c, name);
    assert(nbt::is_first(c, name, k));
    lemma_custom_entries(c, cat, k);
    if item_nbt::custom_entries(c, cat).len() == 0 {
        let at = nbt::position(item_nbt::custom_entries(c, cat), name);
        assert(nbt::is_first(item_nbt::custom_entries(c, cat), name, at));
    }
    lemma_custom_data(c, version, texts, cat);
}

// --- there and back ----------------------------------------------------------------------------------

/// The tag that a plain component becomes.
pub open spec fn plain_name(component: DataComponent) -> Option<Seq<u8>> {
    match component {
        DataComponent::Damage => Some(wire::key("Damage")),
        DataComponent::RepairCost => Some(wire::key("RepairCost")),
        DataComponent::Unbreakable => Some(wire::key("Unbreakable")),
        DataComponent::CustomModelData => Some(wire::key("CustomModelData")),
        DataComponent::MapId => Some(wire::key("map")),
        _ => None,
    }
}

/// The payload of a plain component, by the number that it holds.
pub open spec fn plain_payload(component: DataComponent, n: i32) -> Seq<u8> {
    match component {
        DataComponent::Unbreakable => seq![],
        DataComponent::CustomModelData => item_component::enc_model(n),
        _ => wire::enc_var_int(n),
    }
}

pub open spec fn plain_tag(component: DataComponent, n: i32) -> Tag {
    match component {
        DataComponent::Unbreakable => nbt::bool_tag(true),
        _ => nbt::int_tag(n),
    }
}

proof fn lemma_tag_names()
    ensures
        wire::key("Damage").len() == 6,
        wire::key("RepairCost").len() == 10,
        wire::key("map").len() == 3,
        wire::key("Unbreakable").len() == 11,
        wire::key("CustomModelData").len() == 15,
        wire::key("display").len() == 7,
        wire::key("HideFlags").len() == 9,
        wire::key("Enchantments").len() == 12,
        wire::key("StoredEnchantments").len() == 18,
        wire::key("CanPlaceOn").len() == 10,
        wire::key("CanDestroy").len() == 10,
        wire::key("Potion").len() == 6,
        wire::key("CustomPotionColor").len() == 17,
        wire::key("CustomPotionEffects").len() == 19,
        wire::key("SkullOwner").len() == 10,
        wire::key("BlockEntityTag").len() == 14,
        wire::key("Trim").len() == 4,
        wire::key("instrument").len() == 10,
        wire::key("title").len() == 5,
        wire::key("author").len() == 6,
        wire::key("pages").len() == 5,
        wire::key("resolved").len() == 8,
        wire::key("AttributeModifiers").len() == 18,
        wire::key("ChargedProjectiles").len() == 18,
        wire::key("Charged").len() == 7,
        wire::key("Items").len() == 5,
        wire::key("Damage")[0] == 68,
        wire::key("RepairCost")[0] == 82,
        wire::key("map")[0] == 109,
        wire::key("Unbreakable")[0] == 85,
        wire::key("CustomModelData")[0] == 67,
        wire::key("CanPlaceOn")[0] == 67,
        wire::key("CanDestroy")[0] == 67,
        wire::key("Potion")[0] == 80,
        wire::key("SkullOwner")[0] == 83,
        wire::key("instrument")[0] == 105,
        wire::key("author")[0] == 97,
{
    reveal_strlit("Damage");
    reveal_strlit("RepairCost");
    reveal_strlit("map");
    reveal_strlit("Unbreakable");
    reveal_strlit("CustomModelData");
    reveal_strlit("display");
    reveal_strlit("HideFlags");
    reveal_strlit("Enchantments");
    reveal_strlit("StoredEnchantments");
    reveal_strlit("CanPlaceOn");
    reveal_strlit("CanDestroy");
    reveal_strlit("Potion");
    reveal_strlit("CustomPotionColor");
    reveal_strlit("CustomPotionEffects");
    reveal_strlit("SkullOwner");
    reveal_strlit("BlockEntityTag");
    reveal_strlit("Trim");
    reveal_strlit("instrument");
    reveal_strlit("title");
    reveal_strlit("author");
    reveal_strlit("pages");
    reveal_strlit("resolved");
    reveal_strlit("AttributeModifiers");
    reveal_strlit("ChargedProjectiles");
    reveal_strlit("Charged");
    reveal_strlit("Items");
    vstd::utf8::is_ascii_chars_encode_utf8("Damage"@);
    vstd::utf8::is_ascii_chars_encode_utf8("RepairCost"@);
    vstd::utf8::is_ascii_chars_encode_utf8("map"@);
    vstd::utf8::is_ascii_chars_encode_utf8("Unbreakable"@);
    vstd::utf8::is_ascii_chars_encode_utf8("CustomModelData"@);
    vstd::utf8::is_ascii_chars_encode_utf8("display"@);
    vstd::utf8::is_ascii_chars_encode_utf8("HideFlags"@);
    vstd::utf8::is_ascii_chars_encode_utf8("Enchantments"@);
    vstd::utf8::is_ascii_chars_encode_utf8("StoredEnchantments"@);
    vstd::utf8::is_ascii_chars_encode_utf8("CanPlaceOn"@);
    vstd::utf8::is_ascii_chars_encode_utf8("CanDestroy"@);
    vstd::utf8::is_ascii_chars_encode_utf8("Potion"@);
    vstd::utf8::is_ascii_chars_encode_utf8("CustomPotionColor"@);
    vstd::utf8::is_ascii_chars_encode_utf8("CustomPotionEffects"@);
    vstd::utf8::is_ascii_chars_encode_utf8("SkullOwner"@);
    vstd::utf8::is_ascii_chars_encode_utf8("BlockEntityTag"@);
    vstd::utf8::is_ascii_chars_encode_utf8("Trim"@);
    vstd::utf8::is_ascii_chars_encode_utf8("instrument"@);
    vstd::utf8::is_ascii_chars_encode_utf8("title"@);
    vstd::utf8::is_ascii_chars_encode_utf8("author"@);
    vstd::utf8::is_ascii_chars_encode_utf8("pages"@);
    vstd::utf8::is_ascii_chars_encode_utf8("resolved"@);
    vstd::utf8::is_ascii_chars_encode_utf8("AttributeModifiers"@);
    vstd::utf8::is_ascii_chars_encode_utf8("ChargedProjectiles"@);
    vstd::utf8::is_ascii_chars_encode_utf8("Charged"@);
    vstd::utf8::is_ascii_chars_encode_utf8("Items"@);
}

/// Puts under other names leave a plain tag alone.
proof fn lemma_put_beside(root: Seq<Entry>, name: Seq<u8>, other: Seq<u8>)
    requires
        name != other,
    ensures
        forall|tag: Tag| nbt::get(#[trigger] nbt::put(root, other, tag), name) == nbt::get(root, name),
{
    assert forall|tag: Tag| nbt::get(#[trigger] nbt::put(root, other, tag), name) == nbt::get(root, name) by {
        nbt::put_entries_leave_the_rest(root, other, tag, name);
    }
}

proof fn lemma_potion_beside(root: Seq<Entry>, data: Seq<u8>, version: Version, cat: &Catalog, name: Seq<u8>)
    requires
        name != wire::key("Potion"),
        name != wire::key("CustomPotionColor"),
        name != wire::key("CustomPotionEffects"),
    ensures
        nbt::get(item_nbt::with_potion(root, data, version, cat), name) == nbt::get(root, name),
{
    assert forall|r: Seq<Entry>, s: Seq<u8>|
        nbt::get(#[trigger] item_nbt::with_effects(r, s, version, cat), name) == nbt::get(r, name) by {
        lemma_put_beside(r, name, wire::key("CustomPotionEffects"));
    }
    assert forall|r: Seq<Entry>, tag: Tag|
        nbt::get(#[trigger] nbt::put(r, wire::key("Potion"), tag), name) == nbt::get(r, name) by {
        lemma_put_beside(r, name, wire::key("Potion"));
    }
    assert forall|r: Seq<Entry>, tag: Tag|
        nbt::get(#[trigger] nbt::put(r, wire::key("CustomPotionColor"), tag), name) == nbt::get(r, name) by {
        lemma_put_beside(r, name, wire::key("CustomPotionColor"));
    }
}

proof fn lemma_books_beside(root: Seq<Entry>, data: Seq<u8>, texts: &Texts, name: Seq<u8>)
    requires
        name != wire::key("title"),
        name != wire::key("author"),
        name != wire::key("pages"),
        name != wire::key("resolved"),
    ensures
        nbt::get(item_nbt::with_written_book(root, data, texts), name) == nbt::get(root, name),
        nbt::get(item_nbt::with_writable_book(root, data), name) == nbt::get(root, name),
{
    lemma_put_beside(root, name, wire::key("pages"));
    lemma_put_beside(root, name, wire::key("title"));
    if let Some((title, author, pages)) = item_nbt::written_book(data, texts) {
        let a = nbt::put(root, wire::key("title"), nbt::string_tag(title));
        let b = nbt::put(a, wire::key("author"), nbt::string_tag(author));
        let c = nbt::put(b, wire::key("pages"), nbt::list_tag(pages));
        lemma_put_beside(a, name, wire::key("author"));
        lemma_put_beside(b, name, wire::key("pages"));
        lemma_put_beside(c, name, wire::key("resolved"));
    }
}

/// A component beside the wanted one leaves its tag alone.
proof fn lemma_drafted_beside(
    d: DraftView,
    component: DataComponent,
    data: Seq<u8>,
    added: Seq<Component>,
    to: &Target,
    wanted: DataComponent,
)
    requires
        plain_name(wanted) is Some,
        component != wanted,
    ensures
        nbt::get(item_nbt::drafted_plain(d, component, data, added, to).root, plain_name(wanted).unwrap())
            == nbt::get(d.root, plain_name(wanted).unwrap()),
{
    let name = plain_name(wanted).unwrap();
    lemma_tag_names();
    match component {
        DataComponent::Damage => lemma_put_beside(d.root, name, wire::key("Damage")),
        DataComponent::RepairCost => lemma_put_beside(d.root, name, wire::key("RepairCost")),
        DataComponent::MapId => lemma_put_beside(d.root, name, wire::key("map")),
        DataComponent::Unbreakable => lemma_put_beside(d.root, name, wire::key("Unbreakable")),
        DataComponent::CustomModelData => lemma_put_beside(d.root, name, wire::key("CustomModelData")),
        DataComponent::Enchantments => lemma_put_beside(d.root, name, wire::key("Enchantments")),
        DataComponent::StoredEnchantments => lemma_put_beside(d.root, name, wire::key("StoredEnchantments")),
        DataComponent::CanPlaceOn => lemma_put_beside(d.root, name, wire::key("CanPlaceOn")),
        DataComponent::CanBreak => lemma_put_beside(d.root, name, wire::key("CanDestroy")),
        DataComponent::PotionContents => lemma_potion_beside(d.root, data, to.version, to.cat, name),
        DataComponent::Profile => lemma_put_beside(d.root, name, wire::key("SkullOwner")),
        DataComponent::BlockEntityData => lemma_put_beside(d.root, name, wire::key("BlockEntityTag")),
        DataComponent::Trim => lemma_put_beside(d.root, name, wire::key("Trim")),
        DataComponent::Instrument => lemma_put_beside(d.root, name, wire::key("instrument")),
        DataComponent::WrittenBookContent => lemma_books_beside(d.root, data, to.texts, name),
        DataComponent::WritableBookContent => lemma_books_beside(d.root, data, to.texts, name),
        DataComponent::AttributeModifiers => lemma_put_beside(d.root, name, wire::key("AttributeModifiers")),
        _ => {},
    }
}

/// As `lemma_drafted_beside`, of any component of a stack.
proof fn lemma_step_beside(d: DraftView, added: Seq<Component>, i: int, to: &Target, wanted: DataComponent)
    requires
        plain_name(wanted) is Some,
        0 <= i < added.len(),
        catalog::component_of(to.cat, added[i].id) != Some(wanted),
    ensures
        nbt::get(item_nbt::drafted(d, added, i, to).root, plain_name(wanted).unwrap()) == nbt::get(
            d.root,
            plain_name(wanted).unwrap(),
        ),
{
    let name = plain_name(wanted).unwrap();
    lemma_tag_names();
    lemma_put_beside(d.root, name, wire::key("ChargedProjectiles"));
    lemma_put_beside(d.root, name, wire::key("Items"));
    lemma_put_beside(d.root, name, wire::key("BlockEntityTag"));
    match catalog::component_of(to.cat, added[i].id) {
        Some(DataComponent::ChargedProjectiles) => {
            if let Some(tags) = item_nbt::stack_tags(added[i].data, false, to) {
                lemma_put_beside(
                    nbt::put(d.root, wire::key("ChargedProjectiles"), nbt::list_tag(tags)),
                    name,
                    wire::key("Charged"),
                );
            }
        },
        Some(DataComponent::BundleContents) => {},
        Some(DataComponent::Container) => {},
        Some(component) => lemma_drafted_beside(d, component, added[i].data, added, to, wanted),
        None => {},
    }
}

/// The wanted component puts its tag.
proof fn lemma_step_puts(d: DraftView, added: Seq<Component>, i: int, to: &Target, wanted: DataComponent, n: i32)
    requires
        plain_name(wanted) is Some,
        0 <= i < added.len(),
        catalog::component_of(to.cat, added[i].id) == Some(wanted),
        added[i].data == plain_payload(wanted, n),
        wanted == DataComponent::CustomModelData ==> -0x100_0000 <= n <= 0x100_0000,
    ensures
        nbt::get(item_nbt::drafted(d, added, i, to).root, plain_name(wanted).unwrap()) == Some(plain_tag(wanted, n)),
{
    let name = plain_name(wanted).unwrap();
    let none = Seq::<u8>::empty();
    nbt::put_entries_are_found(d.root, name, plain_tag(wanted, n));
    if wanted == DataComponent::CustomModelData {
        item_component::model_values_come_back(n);
    } else if wanted != DataComponent::Unbreakable {
        assert(wire::enc_var_int(n) + none =~= wire::enc_var_int(n));
        wire::var_int_round_trip(n, none);
    }
    assert(item_nbt::drafted(d, added, i, to) == item_nbt::drafted_plain(d, wanted, added[i].data, added, to));
}

proof fn lemma_draft(
    d: DraftView,
    added: Seq<Component>,
    i: int,
    to: &Target,
    wanted: DataComponent,
    n: i32,
    k: int,
)
    requires
        plain_name(wanted) is Some,
        0 <= i <= added.len(),
        is_alone(added, k, to.cat, wanted),
        added[k].data == plain_payload(wanted, n),
        wanted == DataComponent::CustomModelData ==> -0x100_0000 <= n <= 0x100_0000,
        k < i ==> nbt::get(d.root, plain_name(wanted).unwrap()) == Some(plain_tag(wanted, n)),
    ensures
        nbt::get(item_nbt::drafted_from(d, added, i, to).root, plain_name(wanted).unwrap()) == Some(
            plain_tag(wanted, n),
        ),
    decreases added.len() - i,
{
    if i < added.len() {
        if i == k {
            lemma_step_puts(d, added, i, to, wanted, n);
        } else {
            lemma_step_beside(d, added, i, to, wanted);
        }
        lemma_draft(item_nbt::drafted(d, added, i, to), added, i + 1, to, wanted, n, k);
    }
}

/// Whether the component at a place is the only one of its kind in a stack.
pub open spec fn is_alone(added: Seq<Component>, k: int, cat: &Catalog, wanted: DataComponent) -> bool {
    &&& 0 <= k < added.len()
    &&& catalog::component_of(cat, added[k].id) == Some(wanted)
    &&& forall|j: int|
        0 <= j < added.len() && j != k ==> catalog::component_of(cat, (#[trigger] added[j]).id) != Some(wanted)
}

proof fn lemma_finished(d: DraftView, wanted: DataComponent)
    requires
        plain_name(wanted) is Some,
        nbt::holds(d.root, plain_name(wanted).unwrap()),
    ensures
        item_nbt::finished(d) is Some,
        nbt::get(item_nbt::finished(d).unwrap(), plain_name(wanted).unwrap()) == nbt::get(
            d.root,
            plain_name(wanted).unwrap(),
        ),
{
    let name = plain_name(wanted).unwrap();
    let k = nbt::position(d.root, name);
    assert(nbt::is_first(d.root, name, k));
    lemma_tag_names();
    lemma_put_beside(d.root, name, wire::key("display"));
    lemma_put_beside(d.root, name, wire::key("HideFlags"));
    assert forall|shown: Tag, flags: Tag|
        nbt::get(
            #[trigger] nbt::put(nbt::put(d.root, wire::key("display"), shown), wire::key("HideFlags"), flags),
            name,
        ) == nbt::get(d.root, name) by {
        lemma_put_beside(nbt::put(d.root, wire::key("display"), shown), name, wire::key("HideFlags"));
    }
}

proof fn lemma_in_table(cat: &Catalog, id: i32, i: int, component: DataComponent)
    requires
        0 <= i <= id,
        catalog::component_of(cat, id) == Some(component),
    ensures
        catalog::id_from(cat.components@, component, i) != -1,
    decreases id - i,
{
    if cat.components@[i] != component {
        lemma_in_table(cat, id, i + 1, component);
    }
}

/// Damage, repair cost, map number, unbreakability and the number of a model go to a
/// client of the NBT releases and come back as they were.
pub proof fn plain_components_come_back(added: Seq<Component>, k: int, to: &Target, wanted: DataComponent, n: i32)
    requires
        plain_name(wanted) is Some,
        is_alone(added, k, to.cat, wanted),
        added[k].data == plain_payload(wanted, n),
        wanted == DataComponent::CustomModelData ==> -0x100_0000 <= n <= 0x100_0000,
    ensures
        item_nbt::nbt_form(added, to) matches Some(c) && item_nbt::data_of(
            item_nbt::native_components(c, to.version, to.texts, to.cat),
            wanted,
            to.cat,
        ) == Some(added[k].data),
{
    let first = item_nbt::first_draft(added, to.cat);
    let d = item_nbt::drafted_from(first, added, 0, to);
    lemma_draft(first, added, 0, to, wanted, n, k);
    lemma_finished(d, wanted);
    let c = item_nbt::finished(d).unwrap();
    lemma_in_table(to.cat, added[k].id, 0, wanted);
    lemma_plain_read(c, wanted, n);
    numbers_come_from_their_tags(c, to.version, to.texts, to.cat, wanted);
}

proof fn lemma_plain_read(c: Seq<Entry>, wanted: DataComponent, n: i32)
    requires
        plain_name(wanted) is Some,
        nbt::get(c, plain_name(wanted).unwrap()) == Some(plain_tag(wanted, n)),
    ensures
        number_data(c, wanted) == Some(plain_payload(wanted, n)),
{
    if wanted == DataComponent::Unbreakable {
        assert(nbt::int_like(nbt::bool_tag(true)) == Some(1i32));
    } else {
        let none = Seq::<u8>::empty();
        wire::u32_round_trip(wire::bits_of_i32(n), none);
        assert(wire::enc_u32(wire::bits_of_i32(n)) + none =~= wire::enc_u32(wire::bits_of_i32(n)));
        assert(nbt::int_like(nbt::int_tag(n)) == Some(n));
    }
}

// --- carried compounds ---------------------------------------------------------------------------------

/// Whether a compound has only tags that no component stands for.
pub open spec fn is_all_carried(c: Seq<Entry>) -> bool {
    forall|i: int| 0 <= i < c.len() ==> is_carried((#[trigger] c[i]).name)
}

proof fn lemma_absent(c: Seq<Entry>, name: Seq<u8>)
    requires
        is_all_carried(c),
        !is_carried(name),
    ensures
        nbt::get(c, name) is None,
{
    if nbt::holds(c, name) {
        let k = nbt::position(c, name);
        assert(nbt::is_first(c, name, k));
        assert(is_carried(c[k].name));
    }
}

proof fn lemma_no_numbers(c: Seq<Entry>, version: Version, cat: &Catalog)
    requires
        is_all_carried(c),
    ensures
        item_nbt::native_numbers(c, version, cat) == Seq::<Component>::empty(),
{
    lemma_absent(c, wire::key("Damage"));
    lemma_absent(c, wire::key("RepairCost"));
    lemma_absent(c, wire::key("Unbreakable"));
    lemma_absent(c, wire::key("CustomModelData"));
    lemma_absent(c, wire::key("map"));
    lemma_absent(c, wire::key("CanPlaceOn"));
    lemma_absent(c, wire::key("CanDestroy"));
    lemma_absent(c, wire::key("Enchantments"));
    lemma_absent(c, wire::key("StoredEnchantments"));
    lemma_absent(c, wire::key("Potion"));
    lemma_absent(c, wire::key("CustomPotionColor"));
    lemma_absent(c, wire::key("CustomPotionEffects"));
    lemma_absent(c, wire::key("custom_potion_effects"));
    assert(item_nbt::native_numbers(c, version, cat) =~= Seq::<Component>::empty());
}

proof fn lemma_no_equipment(c: Seq<Entry>, cat: &Catalog)
    requires
        is_all_carried(c),
    ensures
        item_nbt::profile_native(c) is None,
        item_nbt::block_entity_native(c) is None,
        item_nbt::trim_native(c, cat) is None,
        item_nbt::instrument_native(c, cat) is None,
        item_nbt::written_book_native(c) is None,
        item_nbt::writable_book_native(c) is None,
        item_nbt::tooltip_native(c, cat) is None,
        item_nbt::hide_flags_in(c) == 0,
        nbt::compound_in(c, wire::key("display")) is None,
{
    lemma_absent(c, wire::key("SkullOwner"));
    lemma_absent(c, wire::key("BlockEntityTag"));
    lemma_absent(c, wire::key("Trim"));
    lemma_absent(c, wire::key("instrument"));
    lemma_absent(c, wire::key("pages"));
    lemma_absent(c, wire::key("title"));
    lemma_absent(c, wire::key("author"));
    lemma_absent(c, wire::key("HideFlags"));
    lemma_absent(c, wire::key("CanPlaceOn"));
    lemma_absent(c, wire::key("CanDestroy"));
    lemma_absent(c, wire::key("display"));
}

/// Of such a compound every entry is kept.
proof fn lemma_all_kept(c: Seq<Entry>, i: int, out: Seq<Entry>)
    requires
        is_all_carried(c),
        is_all_carried(out),
        0 <= i <= c.len(),
    ensures
        item_nbt::kept_from(c, i, out, false) == nbt::merged_from(c, i, out),
        is_all_carried(nbt::merged_from(c, i, out)),
    decreases c.len() - i,
{
    if i < c.len() {
        let next = nbt::put(out, c[i].name, c[i].tag);
        assert(is_carried(c[i].name));
        if nbt::holds(out, c[i].name) {
            assert(nbt::is_first(out, c[i].name, nbt::position(out, c[i].name)));
        }
        assert forall|j: int| 0 <= j < next.len() implies is_carried((#[trigger] next[j]).name) by {
            if j < out.len() {
                assert(is_carried(out[j].name));
            }
        }
        lemma_all_kept(c, i + 1, next);
    }
}

/// The whole of such a compound is custom data.
proof fn lemma_custom_whole(c: Seq<Entry>, version: Version, texts: &Texts, cat: &Catalog)
    requires
        nbt::are_writable(c),
        is_all_carried(c),
        c.len() > 0,
    ensures
        nbt::is_compound(nbt::merged(c)),
        is_all_carried(nbt::merged(c)),
        nbt::merged(c).len() > 0,
        item_nbt::native_components(c, version, texts, cat) == seq![
            Component {
                id: catalog::id_of(cat, DataComponent::CustomData),
                data: nbt::enc_nbt(Some(nbt::compound_tag(nbt::merged(c))), false),
            },
        ],
{
    lemma_no_numbers(c, version, cat);
    lemma_no_equipment(c, cat);
    lemma_all_kept(c, 0, seq![]);
    nbt::merged_entries_are_compounds(c, 0, seq![]);
    let flags = !item_nbt::translated_flags(c, cat);
    assert(0i32 & flags == 0i32) by (bit_vector);
    assert(item_nbt::custom_entries(c, cat) == nbt::merged(c));
    assert(item_nbt::native_components(c, version, texts, cat) =~= item_nbt::piece(
        cat,
        DataComponent::CustomData,
        item_nbt::custom_native(c, cat),
    ));
}

/// Tags that no component stands for go to the server as custom data and come back as
/// they were sent, each name once: a compound comes back whole.
pub proof fn carried_compounds_come_back(c: Seq<Entry>, to: &Target)
    requires
        nbt::are_writable(c),
        is_all_carried(c),
        c.len() > 0,
    ensures
        item_nbt::nbt_form(item_nbt::native_components(c, to.version, to.texts, to.cat), to) == Some(nbt::merged(c)),
        nbt::is_compound(c) ==> nbt::merged(c) == c,
{
    let id = catalog::id_of(to.cat, DataComponent::CustomData);
    let all = nbt::merged(c);
    let data = nbt::enc_nbt(Some(nbt::compound_tag(all)), false);
    let added = seq![Component { id, data }];
    if nbt::is_compound(c) {
        nbt::compounds_are_merged(c);
    }
    lemma_custom_whole(c, to.version, to.texts, to.cat);
    lemma_no_equipment(all, to.cat);
    lemma_absent(all, wire::key("HideFlags"));
    nbt::compounds_read_back(all);
    nbt::tags_read_back(nbt::compound_tag(all), false, seq![]);
    assert(data + Seq::<u8>::empty() =~= data);
    assert(item_nbt::data_from(added, id, 0) == Some(data));
    if id != -1 {
        lemma_id_of_component(to.cat, DataComponent::CustomData, 0);
    }
    let d = item_nbt::first_draft(added, to.cat);
    assert(d.root == all);
    assert(item_nbt::drafted(d, added, 0, to) == d);
    assert(item_nbt::drafted_from(d, added, 1, to) == d);
    assert(item_nbt::drafted_from(d, added, 0, to) == d);
}

/// As `carried_compounds_come_back`, of a tag as a client sends it: what is read of it
/// comes back, whatever its bytes are.
pub proof fn carried_tags_come_back(tag: Tag, to: &Target)
    requires
        nbt::compound_of(tag) matches Some(c) && c.len() > 0 && is_all_carried(c),
    ensures
        item_nbt::nbt_form(
            item_nbt::native_components(nbt::compound_of(tag).unwrap(), to.version, to.texts, to.cat),
            to,
        ) == nbt::compound_of(tag),
{
    nbt::read_compounds_can_be_written(tag);
    carried_compounds_come_back(nbt::compound_of(tag).unwrap(), to);
}

pub proof fn lemma_id_of_component(cat: &Catalog, component: DataComponent, i: int)
    requires
        0 <= i,
        catalog::id_from(cat.components@, component, i) != -1,
    ensures
        catalog::component_of(cat, catalog::id_from(cat.components@, component, i)) == Some(component),
    decreases cat.components@.len() - i,
{
    if cat.components@[i] != component {
        lemma_id_of_component(cat, component, i + 1);
    }
}

/// A stack without components has no NBT.
pub proof fn no_components_have_no_nbt(to: &Target)
    ensures
        item_nbt::nbt_form(seq![], to) is None,
{
    let none = Seq::<Component>::empty();
    let d = item_nbt::first_draft(none, to.cat);
    assert(item_nbt::data_of(none, DataComponent::CustomData, to.cat) is None);
    if nbt::holds(d.root, wire::key("display")) {
        assert(nbt::is_first(d.root, wire::key("display"), nbt::position(d.root, wire::key("display"))));
    }
    if nbt::holds(d.root, wire::key("HideFlags")) {
        assert(nbt::is_first(d.root, wire::key("HideFlags"), nbt::position(d.root, wire::key("HideFlags"))));
    }
    assert(item_nbt::drafted_from(d, none, 0, to) == d);
}

// --- stand-ins -----------------------------------------------------------------------------------------

/// A draft of a stack without a component gets no tag for it.
proof fn lemma_draft_beside(d: DraftView, added: Seq<Component>, i: int, to: &Target, wanted: DataComponent)
    requires
        plain_name(wanted) is Some,
        0 <= i <= added.len(),
        forall|j: int| 0 <= j < added.len() ==> catalog::component_of(to.cat, (#[trigger] added[j]).id) != Some(wanted),
    ensures
        nbt::get(item_nbt::drafted_from(d, added, i, to).root, plain_name(wanted).unwrap()) == nbt::get(
            d.root,
            plain_name(wanted).unwrap(),
        ),
    decreases added.len() - i,
{
    if i < added.len() {
        lemma_step_beside(d, added, i, to, wanted);
        lemma_draft_beside(item_nbt::drafted(d, added, i, to), added, i + 1, to, wanted);
    }
}

/// What stands in a finished draft under the name of a plain component stood in its root.
proof fn lemma_finished_beside(d: DraftView, wanted: DataComponent)
    requires
        plain_name(wanted) is Some,
    ensures
        item_nbt::finished(d) matches Some(c) ==> nbt::get(c, plain_name(wanted).unwrap()) == nbt::get(
            d.root,
            plain_name(wanted).unwrap(),
        ),
{
    let name = plain_name(wanted).unwrap();
    lemma_tag_names();
    lemma_put_beside(d.root, name, wire::key("display"));
    lemma_put_beside(d.root, name, wire::key("HideFlags"));
    assert forall|shown: Tag, flags: Tag|
        nbt::get(
            #[trigger] nbt::put(nbt::put(d.root, wire::key("display"), shown), wire::key("HideFlags"), flags),
            name,
        ) == nbt::get(d.root, name) by {
        lemma_put_beside(nbt::put(d.root, wire::key("display"), shown), name, wire::key("HideFlags"));
    }
}

/// Whether a stack has no model of its own, neither as a component nor as a tag among
/// its custom data.
pub open spec fn has_no_model(added: Seq<Component>, cat: &Catalog) -> bool {
    &&& nbt::get(item_nbt::first_draft(added, cat).root, wire::key("CustomModelData")) is None
    &&& forall|j: int|
        0 <= j < added.len() ==> catalog::component_of(cat, (#[trigger] added[j]).id) != Some(
            DataComponent::CustomModelData,
        )
}

/// An item that a client before 1.20.5 is shown another one for comes back as itself,
/// with the count that the old form can hold: the model that marks the stand-in leads
/// back to it. The stack's other tags have to be ones that can be written down.
pub proof fn tagged_stand_ins_lead_back(stack: Stack, row: int, to: &Target)
    requires
        item::is_stood_in(stack, row, to),
        to.version < types::FIRST_STRUCTURED,
        catalog::id_of(to.cat, DataComponent::CustomModelData) >= 0,
        has_no_model(stack->Structured_added, to.cat),
        item_nbt::nbt_form(stack->Structured_added, to) matches Some(c) ==> nbt::is_compound(c),
    ensures
        item::stack_to_native(item::stack_to_version(stack, to), to) matches Stack::Structured { id, count, .. } && id
            == stack->Structured_id && count == item::count_i8(stack->Structured_count),
{
    let added = stack->Structured_added;
    let value = to.ids.custom_model_data@[row].1;
    let name = wire::key("CustomModelData");
    let wanted = DataComponent::CustomModelData;
    let first = item_nbt::first_draft(added, to.cat);
    let d = item_nbt::drafted_from(first, added, 0, to);
    lemma_draft_beside(first, added, 0, to, wanted);
    lemma_finished_beside(d, wanted);
    let form = item_nbt::nbt_form(added, to);
    let entries = match form {
        Some(c) => c,
        None => seq![],
    };
    let c = nbt::put(entries, name, nbt::int_tag(value));
    assert(item::with_model_tag(form, Some(value)) == Some(c));
    nbt::put_entries_are_found(entries, name, nbt::int_tag(value));
    lemma_plain_read(c, wanted, value);
    numbers_come_from_their_tags(c, to.version, to.texts, to.cat, wanted);
    nbt::plain_tags_are_whole(value, seq![], seq![]);
    lemma_tag_names();
    nbt::puts_keep_compounds(entries, name, nbt::int_tag(value));
    item::lemma_tagged_model_leads_back(item::count_i8(stack->Structured_count), c, row, to);
}

} // verus!
