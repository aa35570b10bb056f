//! What texts show when the pointer rests on them.
//!
//! A client resolves the names of items and entities while it reads a text, and one
//! name that it does not know fails the whole packet. Such events are taken out, and
//! an entity that the client knows under another kind is named as that kind.
use vstd::prelude::*;
use crate::catalog;
use crate::mapping;
use crate::mapping::ComposedMappings;
use crate::nbt;
use crate::nbt::Tag;
use crate::target;
use crate::target::Rendering;
use crate::target::Texts;
use crate::text;
use crate::wire;

verus! {

/// A part of a text: what it says, the arguments of a translated text, what it shows
/// on hover, and the parts behind it.
pub struct TextNode {
    pub content: Vec<u8>,
    pub arguments: Vec<TextNode>,
    pub hover: Option<HoverEvent>,
    pub extra: Vec<TextNode>,
}

pub enum HoverEvent {
    ShowText(Vec<TextNode>),
    ShowItem(Vec<u8>),
    ShowEntity { id: Vec<u8>, name: Option<Vec<TextNode>> },
}

/// The names that hover events use, and the kinds that stand for others: the bare
/// names of items and of kinds of entities in the order of their ids, and for a kind
/// that the client does not have the one that it is shown as.
pub struct HoverTables {
    pub items: Vec<Vec<u8>>,
    pub entities: Vec<Vec<u8>>,
    pub stand_ins: Vec<(i32, i32)>,
}

pub open spec fn stand_in_from(rows: Seq<(i32, i32)>, entity: i32, i: int) -> i32
    decreases rows.len() - i,
{
    if i < 0 || i >= rows.len() {
        entity
    } else if rows[i].0 == entity {
        rows[i].1
    } else {
        stand_in_from(rows, entity, i + 1)
    }
}

/// The kind that the client is shown.
pub open spec fn stand_in(rows: Seq<(i32, i32)>, entity: i32) -> i32 {
    stand_in_from(rows, entity, 0)
}

#[verifier::loop_isolation(false)]
fn find_stand_in(rows: &Vec<(i32, i32)>, entity: i32) -> (res: i32)
    ensures
        res == stand_in(rows@, entity),
{
    let mut i: usize = 0;
    while i < rows.len()
        invariant
            i <= rows.len(),
            stand_in(rows@, entity) == stand_in_from(rows@, entity, i as int),
        decreases rows.len() - i,
    {
        if rows[i].0 == entity {
            return rows[i].1;
        }
        i = i + 1;
    }
    entity
}

/// The name of an entity for the client; an unknown name stays.
pub open spec fn shown_entity(id: Seq<u8>, tables: &HoverTables) -> Seq<u8> {
    match catalog::index_of(tables.entities@, text::bare(id)) {
        Some(entity) => {
            let shown = stand_in(tables.stand_ins@, entity);
            if shown == entity {
                id
            } else {
                match catalog::name_at(tables.entities@, shown) {
                    Some(name) => text::namespaced(name),
                    None => id,
                }
            }
        },
        None => id,
    }
}

fn show_entity(id: &Vec<u8>, tables: &HoverTables) -> (res: Vec<u8>)
    ensures
        res@ == shown_entity(id@, tables),
{
    match catalog::find_name(&tables.entities, text::bare_name(id.as_slice())) {
        Some(entity) => {
            let shown: i32 = find_stand_in(&tables.stand_ins, entity);
            if shown == entity {
                return id.clone();
            }
            match catalog::get_name(&tables.entities, shown) {
                Some(name) => text::with_namespace(name),
                None => id.clone(),
            }
        },
        None => id.clone(),
    }
}

/// Whether the client knows an item by its name.
pub open spec fn item_exists(id: Seq<u8>, tables: &HoverTables, ids: &ComposedMappings) -> bool {
    match catalog::index_of(tables.items@, text::bare(id)) {
        Some(item) => mapping::target_of(ids.items@, item as u32) is Some,
        None => false,
    }
}

/// Whether the client knows an entity by its name, or by that of its stand-in.
pub open spec fn entity_exists(id: Seq<u8>, tables: &HoverTables, ids: &ComposedMappings) -> bool {
    match catalog::index_of(tables.entities@, text::bare(id)) {
        Some(entity) => {
            let shown = stand_in(tables.stand_ins@, entity);
            shown >= 0 && mapping::target_of(ids.entities@, shown as u32) is Some
        },
        None => false,
    }
}

fn knows_item(id: &[u8], tables: &HoverTables, ids: &ComposedMappings) -> (res: bool)
    ensures
        res == item_exists(id@, tables, ids),
{
    proof {
        catalog::lemma_index_of(tables.items@, text::bare(id@));
    }
    match catalog::find_name(&tables.items, text::bare_name(id)) {
        Some(item) => ids.items.map(item as u32).is_some(),
        None => false,
    }
}

fn knows_entity(id: &[u8], tables: &HoverTables, ids: &ComposedMappings) -> (res: bool)
    ensures
        res == entity_exists(id@, tables, ids),
{
    match catalog::find_name(&tables.entities, text::bare_name(id)) {
        Some(entity) => {
            let shown: i32 = find_stand_in(&tables.stand_ins, entity);
            shown >= 0 && ids.entities.map(shown as u32).is_some()
        },
        None => false,
    }
}

// --- texts ------------------------------------------------------------------------------------

/// Whether `after` is `before` with every hover event that the client cannot read
/// taken out, and every entity named as the client knows it, at any depth.
pub open spec fn sanitized(before: TextNode, after: TextNode, tables: &HoverTables, ids: &ComposedMappings) -> bool
    decreases before, 0int,
{
    &&& after.content@ == before.content@
    &&& all_sanitized(before.arguments@, after.arguments@, 0, tables, ids)
    &&& all_sanitized(before.extra@, after.extra@, 0, tables, ids)
    &&& match (before.hover, after.hover) {
        (None, None) => true,
        (Some(HoverEvent::ShowText(old_parts)), Some(HoverEvent::ShowText(parts))) => all_sanitized(
            old_parts@,
            parts@,
            0,
            tables,
            ids,
        ),
        (Some(HoverEvent::ShowItem(old_id)), Some(HoverEvent::ShowItem(id))) => item_exists(old_id@, tables, ids)
            && id@ == old_id@,
        (Some(HoverEvent::ShowItem(old_id)), None) => !item_exists(old_id@, tables, ids),
        (
            Some(HoverEvent::ShowEntity { id: old_id, name: old_name }),
            Some(HoverEvent::ShowEntity { id, name }),
        ) => {
            &&& id@ == shown_entity(old_id@, tables)
            &&& entity_exists(shown_entity(old_id@, tables), tables, ids)
            &&& match (old_name, name) {
                (Some(old_parts), Some(parts)) => all_sanitized(old_parts@, parts@, 0, tables, ids),
                (None, None) => true,
                _ => false,
            }
        },
        (Some(HoverEvent::ShowEntity { id: old_id, name: old_name }), None) => !entity_exists(
            shown_entity(old_id@, tables),
            tables,
            ids,
        ),
        _ => false,
    }
}

/// The same of every part from the i-th on.
pub open spec fn all_sanitized(
    before: Seq<TextNode>,
    after: Seq<TextNode>,
    i: int,
    tables: &HoverTables,
    ids: &ComposedMappings,
) -> bool
    decreases before, before.len() - i,
{
    &&& before.len() == after.len()
    &&& 0 <= i < before.len() ==> sanitized(before[i], after[i], tables, ids) && all_sanitized(
        before,
        after,
        i + 1,
        tables,
        ids,
    )
}

#[verifier::loop_isolation(false)]
fn sanitize_all(before: &Vec<TextNode>, tables: &HoverTables, ids: &ComposedMappings) -> (res: Vec<TextNode>)
    ensures
        all_sanitized(before@, res@, 0, tables, ids),
    decreases before@, 1int,
{
    let mut after: Vec<TextNode> = Vec::new();
    let mut i: usize = 0;
    while i < before.len()
        invariant
            i <= before.len(),
            after.len() == i,
            forall|k: int| 0 <= k < i ==> sanitized(#[trigger] before@[k], after@[k], tables, ids),
        decreases before.len() - i,
    {
        after.push(sanitize_base(&before[i], tables, ids));
        i = i + 1;
    }
    proof {
        lemma_all_sanitized(before@, after@, 0, tables, ids);
    }
    after
}

proof fn lemma_all_sanitized(
    before: Seq<TextNode>,
    after: Seq<TextNode>,
    i: int,
    tables: &HoverTables,
    ids: &ComposedMappings,
)
    requires
        0 <= i,
        before.len() == after.len(),
        forall|k: int| 0 <= k < before.len() ==> sanitized(#[trigger] before[k], after[k], tables, ids),
    ensures
        all_sanitized(before, after, i, tables, ids),
    decreases before.len() - i,
{
    if i < before.len() {
        lemma_all_sanitized(before, after, i + 1, tables, ids);
    }
}

/// Takes the hover events out of a text that the client cannot read.
pub fn sanitize_base(base: &TextNode, tables: &HoverTables, ids: &ComposedMappings) -> (res: TextNode)
    ensures
        sanitized(*base, res, tables, ids),
        is_readable(res, tables, ids),
    decreases *base, 0int,
{
    let arguments: Vec<TextNode> = sanitize_all(&base.arguments, tables, ids);
    let extra: Vec<TextNode> = sanitize_all(&base.extra, tables, ids);
    let hover: Option<HoverEvent> = match &base.hover {
        None => None,
        Some(HoverEvent::ShowText(parts)) => Some(HoverEvent::ShowText(sanitize_all(parts, tables, ids))),
        Some(HoverEvent::ShowItem(id)) => if knows_item(id.as_slice(), tables, ids) {
            Some(HoverEvent::ShowItem(id.clone()))
        } else {
            None
        },
        Some(HoverEvent::ShowEntity { id, name }) => {
            let shown: Vec<u8> = show_entity(id, tables);
            if knows_entity(shown.as_slice(), tables, ids) {
                let name: Option<Vec<TextNode>> = match name {
                    Some(parts) => Some(sanitize_all(parts, tables, ids)),
                    None => None,
                };
                Some(HoverEvent::ShowEntity { id: shown, name })
            } else {
                None
            }
        },
    };
    let res = TextNode { content: base.content.clone(), arguments, hover, extra };
    proof {
        sanitized_texts_are_readable(*base, res, tables, ids);
    }
    res
}

/// A text of the server: its tag, as its bytes on its own, and its parts.
pub struct SpokenText {
    pub tag: Vec<u8>,
    pub text: TextNode,
}

/// What a client can read of the server's texts, in their order and under their tags.
/// The forms that the client is sent are made of these.
pub fn readable_texts(spoken: &Vec<SpokenText>, tables: &HoverTables, ids: &ComposedMappings) -> (res: Vec<SpokenText>)
    ensures
        res.len() == spoken.len(),
        forall|i: int|
            0 <= i < res.len() ==> (#[trigger] res@[i]).tag@ == spoken@[i].tag@ && sanitized(
                spoken@[i].text,
                res@[i].text,
                tables,
                ids,
            ) && is_readable(res@[i].text, tables, ids),
{
    let mut res: Vec<SpokenText> = Vec::new();
    let mut i: usize = 0;
    while i < spoken.len()
        invariant
            i <= spoken.len(),
            res.len() == i,
            forall|k: int|
                0 <= k < i ==> (#[trigger] res@[k]).tag@ == spoken@[k].tag@ && sanitized(
                    spoken@[k].text,
                    res@[k].text,
                    tables,
                    ids,
                ) && is_readable(res@[k].text, tables, ids),
        decreases spoken.len() - i,
    {
        res.push(
            SpokenText { tag: spoken[i].tag.clone(), text: sanitize_base(&spoken[i].text, tables, ids) },
        );
        i = i + 1;
    }
    res
}

// --- laws ------------------------------------------------------------------------------------------

/// Whether the client can read every hover event of a text, at any depth.
pub open spec fn is_readable(node: TextNode, tables: &HoverTables, ids: &ComposedMappings) -> bool
    decreases node, 0int,
{
    &&& all_readable(node.arguments@, 0, tables, ids)
    &&& all_readable(node.extra@, 0, tables, ids)
    &&& match node.hover {
        None => true,
        Some(HoverEvent::ShowText(parts)) => all_readable(parts@, 0, tables, ids),
        Some(HoverEvent::ShowItem(id)) => item_exists(id@, tables, ids),
        Some(HoverEvent::ShowEntity { id, name }) => entity_exists(id@, tables, ids) && match name {
            Some(parts) => all_readable(parts@, 0, tables, ids),
            None => true,
        },
    }
}

pub open spec fn all_readable(nodes: Seq<TextNode>, i: int, tables: &HoverTables, ids: &ComposedMappings) -> bool
    decreases nodes, nodes.len() - i,
{
    0 <= i < nodes.len() ==> is_readable(nodes[i], tables, ids) && all_readable(nodes, i + 1, tables, ids)
}

/// A text for a client names no item and no entity that the client lacks, wherever
/// in the text an event stands.
pub proof fn sanitized_texts_are_readable(before: TextNode, after: TextNode, tables: &HoverTables, ids: &ComposedMappings)
    requires
        sanitized(before, after, tables, ids),
    ensures
        is_readable(after, tables, ids),
    decreases before, 0int,
{
    lemma_parts_are_readable(before.arguments@, after.arguments@, 0, tables, ids);
    lemma_parts_are_readable(before.extra@, after.extra@, 0, tables, ids);
    match (before.hover, after.hover) {
        (Some(HoverEvent::ShowText(old_parts)), Some(HoverEvent::ShowText(parts))) => {
            lemma_parts_are_readable(old_parts@, parts@, 0, tables, ids);
        },
        (
            Some(HoverEvent::ShowEntity { id: old_id, name: Some(old_parts) }),
            Some(HoverEvent::ShowEntity { id, name: Some(parts) }),
        ) => {
            lemma_parts_are_readable(old_parts@, parts@, 0, tables, ids);
        },
        _ => {},
    }
}

proof fn lemma_parts_are_readable(
    before: Seq<TextNode>,
    after: Seq<TextNode>,
    i: int,
    tables: &HoverTables,
    ids: &ComposedMappings,
)
    requires
        0 <= i,
        all_sanitized(before, after, i, tables, ids),
    ensures
        all_readable(after, i, tables, ids),
    decreases before, before.len() - i,
{
    if i < before.len() {
        sanitized_texts_are_readable(before[i], after[i], tables, ids);
        lemma_parts_are_readable(before, after, i + 1, tables, ids);
    }
}

/// Whether the forms of all texts at hand were made of texts that the client can read.
pub open spec fn are_readable(texts: &Texts, tables: &HoverTables, ids: &ComposedMappings) -> bool {
    forall|i: int| 0 <= i < texts.rendered.len() ==> is_readable((#[trigger] texts.rendered@[i]).text, tables, ids)
}

proof fn lemma_row_is_readable(
    rows: Seq<Rendering>,
    tag: Seq<u8>,
    i: int,
    tables: &HoverTables,
    ids: &ComposedMappings,
)
    requires
        0 <= i,
        forall|k: int| 0 <= k < rows.len() ==> is_readable((#[trigger] rows[k]).text, tables, ids),
    ensures
        target::rendering_from(rows, tag, i) matches Some(row) ==> is_readable(row.text, tables, ids),
    decreases rows.len() - i,
{
    if i < rows.len() {
        assert(is_readable(rows[i].text, tables, ids));
        lemma_row_is_readable(rows, tag, i + 1, tables, ids);
    }
}

/// What a client is sent for a text tag is the form of a text whose hover events it can
/// all read, or nothing.
pub proof fn sent_texts_are_readable(texts: &Texts, tag: Option<Tag>, tables: &HoverTables, ids: &ComposedMappings)
    requires
        are_readable(texts, tables, ids),
    ensures
        (exists|row: Rendering|
            target::json_of(texts, tag) == row.json@ && target::plain_of(texts, tag) == row.plain@
                && #[trigger] is_readable(row.text, tables, ids)) || (target::json_of(texts, tag).len() == 0
            && target::plain_of(texts, tag).len() == 0),
{
    let key = nbt::enc_nbt(tag, false);
    lemma_row_is_readable(texts.rendered@, key, 0, tables, ids);
    if let Some(row) = target::rendering_from(texts.rendered@, key, 0) {
        assert(is_readable(row.text, tables, ids));
    }
}

} // verus!
