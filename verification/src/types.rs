//! Item stacks and their wire forms.
use vstd::prelude::*;
use vstd::slice::slice_to_vec;
use crate::catalog;
use crate::catalog::Catalog;
use crate::nbt;
use crate::nbt::NbtTag;
use crate::nbt::Tag;
use crate::shape;
use crate::shape::Shape;
use crate::version;
use crate::version::Version;
use crate::wire;
use crate::wire::ReadingError;

verus! {

/// The release from which stacks carry components in place of NBT.
pub const FIRST_STRUCTURED: Version = version::V_1_20_5;

/// The most components a stack may add, and the most it may remove.
pub const MAX_COMPONENTS: i32 = 256;

pub struct ItemComponent {
    pub id: i32,
    pub data: Vec<u8>,
}

/// A stack in one of the two forms that the releases know.
#[allow(inconsistent_fields)]
pub enum Item {
    Empty,
    Nbt { id: i32, count: i8, nbt: Option<NbtTag> },
    Structured { count: i32, id: i32, added: Vec<ItemComponent>, removed: Vec<i32> },
}

/// The mathematical form of a component.
#[verifier::ext_equal]
pub struct Component {
    pub id: i32,
    pub data: Seq<u8>,
}

/// The mathematical form of a stack.
#[verifier::ext_equal]
#[allow(inconsistent_fields)]
pub enum Stack {
    Empty,
    Nbt { id: i32, count: i8, nbt: Option<Tag> },
    Structured { count: i32, id: i32, added: Seq<Component>, removed: Seq<i32> },
}

impl View for ItemComponent {
    type V = Component;

    open spec fn view(&self) -> Component {
        Component { id: self.id, data: self.data@ }
    }
}

pub open spec fn component_views(added: Seq<ItemComponent>) -> Seq<Component> {
    Seq::new(added.len(), |i: int| added[i]@)
}

impl View for Item {
    type V = Stack;

    open spec fn view(&self) -> Stack {
        match *self {
            Item::Empty => Stack::Empty,
            Item::Nbt { id, count, nbt } => Stack::Nbt { id, count, nbt: nbt::tag_opt(nbt) },
            Item::Structured { count, id, added, removed } => Stack::Structured {
                count,
                id,
                added: component_views(added@),
                removed: removed@,
            },
        }
    }
}

/// A stack cannot be written in the form that was asked for.
#[derive(Clone, Copy, PartialEq, Eq, Structural, Debug)]
pub enum WritingError {
    WrongForm,
}

// --- copies ------------------------------------------------------------------------

impl ItemComponent {
    pub fn copy(&self) -> (res: ItemComponent)
        ensures
            res@ == self@,
    {
        ItemComponent { id: self.id, data: self.data.clone() }
    }
}

pub fn copy_components(added: &Vec<ItemComponent>) -> (res: Vec<ItemComponent>)
    ensures
        component_views(res@) == component_views(added@),
{
    let mut out: Vec<ItemComponent> = Vec::new();
    let mut i: usize = 0;
    while i < added.len()
        invariant
            i <= added.len(),
            out@.len() == i,
            forall|j: int| 0 <= j < i ==> (#[trigger] out@[j])@ == added@[j]@,
        decreases added.len() - i,
    {
        out.push(added[i].copy());
        i = i + 1;
    }
    assert(component_views(out@) =~= component_views(added@));
    out
}

impl Item {
    pub fn copy(&self) -> (res: Item)
        ensures
            res@ == self@,
    {
        match self {
            Item::Empty => Item::Empty,
            Item::Nbt { id, count, nbt } => {
                let nbt: Option<NbtTag> = match nbt {
                    Some(tag) => Some(tag.copy()),
                    None => None,
                };
                Item::Nbt { id: *id, count: *count, nbt }
            },
            Item::Structured { count, id, added, removed } => {
                Item::Structured {
                    count: *count,
                    id: *id,
                    added: copy_components(added),
                    removed: removed.clone(),
                }
            },
        }
    }

    pub fn is_empty(&self) -> (res: bool)
        ensures
            res == (self@ is Empty),
    {
        match self {
            Item::Empty => true,
            _ => false,
        }
    }

    pub fn item_id(&self) -> (res: Option<i32>)
        ensures
            res == match self@ {
                Stack::Empty => None::<i32>,
                Stack::Nbt { id, .. } => Some(id),
                Stack::Structured { id, .. } => Some(id),
            },
    {
        match self {
            Item::Empty => None,
            Item::Nbt { id, .. } => Some(*id),
            Item::Structured { id, .. } => Some(*id),
        }
    }
}

// --- writing -------------------------------------------------------------------------

/// A component: its id, the length of its payload where the form has it, the
/// payload.
pub open spec fn enc_component(c: Component, prefixed: bool) -> Seq<u8> {
    wire::enc_var_int(c.id) + (if prefixed {
        wire::enc_len(c.data.len())
    } else {
        seq![]
    }) + c.data
}

pub open spec fn enc_components(added: Seq<Component>, prefixed: bool) -> Seq<u8>
    decreases added.len(),
{
    if added.len() == 0 {
        seq![]
    } else {
        enc_components(added.drop_last(), prefixed) + enc_component(added.last(), prefixed)
    }
}

pub open spec fn enc_ids(ids: Seq<i32>) -> Seq<u8>
    decreases ids.len(),
{
    if ids.len() == 0 {
        seq![]
    } else {
        enc_ids(ids.drop_last()) + wire::enc_var_int(ids.last())
    }
}

/// The component patch of a stack: both counts, the added components, the ids
/// of the removed ones.
pub open spec fn enc_patch(added: Seq<Component>, removed: Seq<i32>, prefixed: bool) -> Seq<u8> {
    wire::enc_len(added.len()) + wire::enc_len(removed.len()) + enc_components(added, prefixed) + enc_ids(
        removed,
    )
}

pub open spec fn i8_byte(n: i8) -> u8 {
    if n >= 0 {
        n as u8
    } else {
        (n + 256) as u8
    }
}

pub open spec fn enc_nbt_stack(id: i32, count: i8, nbt: Option<Tag>, version: Version) -> Seq<u8> {
    seq![1u8] + wire::enc_var_int(id) + seq![i8_byte(count)] + nbt::enc_nbt(
        nbt,
        version::nbt_is_named(version),
    )
}

/// The bytes of a stack in the form of `version`, or nothing where the stack
/// stands in the other form.
pub open spec fn enc_item(stack: Stack, version: Version, prefixed: bool) -> Option<Seq<u8>> {
    match stack {
        Stack::Empty => Some(seq![0u8]),
        Stack::Nbt { id, count, nbt } => if version < FIRST_STRUCTURED {
            Some(enc_nbt_stack(id, count, nbt, version))
        } else {
            None
        },
        Stack::Structured { count, id, added, removed } => if version < FIRST_STRUCTURED {
            None
        } else {
            Some(wire::enc_var_int(count) + wire::enc_var_int(id) + enc_patch(added, removed, prefixed))
        },
    }
}

/// The bytes of a stack that cannot be empty: its id before its count.
pub open spec fn enc_template(stack: Stack) -> Option<Seq<u8>> {
    match stack {
        Stack::Structured { count, id, added, removed } => Some(
            wire::enc_var_int(id) + wire::enc_var_int(count) + enc_patch(added, removed, false),
        ),
        _ => None,
    }
}

pub fn write_ids(out: &mut Vec<u8>, ids: &Vec<i32>)
    ensures
        final(out)@ == old(out)@ + enc_ids(ids@),
{
    let mut i: usize = 0;
    assert(ids@.take(0) =~= seq![]);
    assert(out@ =~= old(out)@ + enc_ids(ids@.take(0)));
    while i < ids.len()
        invariant
            i <= ids.len(),
            out@ == old(out)@ + enc_ids(ids@.take(i as int)),
        decreases ids.len() - i,
    {
        wire::write_var_int(out, ids[i]);
        proof {
            let next = ids@.take(i + 1);
            assert(next.drop_last() =~= ids@.take(i as int));
            assert(out@ =~= old(out)@ + enc_ids(next));
        }
        i = i + 1;
    }
    assert(ids@.take(ids@.len() as int) =~= ids@);
}

fn write_patch(out: &mut Vec<u8>, added: &Vec<ItemComponent>, removed: &Vec<i32>, prefixed: bool)
    ensures
        final(out)@ == old(out)@ + enc_patch(component_views(added@), removed@, prefixed),
{
    wire::write_len(out, added.len());
    wire::write_len(out, removed.len());
    let ghost head = out@;
    let ghost views = component_views(added@);
    let mut i: usize = 0;
    assert(views.take(0) =~= seq![]);
    assert(out@ =~= head + enc_components(views.take(0), prefixed));
    while i < added.len()
        invariant
            i <= added.len(),
            views == component_views(added@),
            out@ == head + enc_components(views.take(i as int), prefixed),
        decreases added.len() - i,
    {
        wire::write_var_int(out, added[i].id);
        if prefixed {
            wire::write_len(out, added[i].data.len());
        }
        wire::write_bytes(out, added[i].data.as_slice());
        proof {
            let next = views.take(i + 1);
            assert(next.drop_last() =~= views.take(i as int));
            assert(next.last() == added@[i as int]@);
            assert(out@ =~= head + (enc_components(next.drop_last(), prefixed) + enc_component(
                next.last(),
                prefixed,
            )));
        }
        i = i + 1;
    }
    assert(views.take(views.len() as int) =~= views);
    write_ids(out, removed);
}

/// Writes a stack in the form of `version`; `prefixed` puts its length before
/// each component payload.
pub fn write_item(out: &mut Vec<u8>, item: &Item, version: Version, prefixed: bool) -> (res: Result<
    (),
    WritingError,
>)
    ensures
        match enc_item(item@, version, prefixed) {
            Some(bytes) => res is Ok && final(out)@ == old(out)@ + bytes,
            None => res is Err && final(out)@ == old(out)@,
        },
{
    match item {
        Item::Empty => {
            out.push(0);
            Ok(())
        },
        Item::Nbt { id, count, nbt } => {
            if version >= FIRST_STRUCTURED {
                return Err(WritingError::WrongForm);
            }
            out.push(1);
            wire::write_var_int(out, *id);
            out.push(if *count >= 0 { *count as u8 } else { (*count as i16 + 256) as u8 });
            match nbt {
                Some(tag) => nbt::write_nbt(out, tag, version::has_named_nbt(version)),
                None => out.push(0),
            }
            Ok(())
        },
        Item::Structured { count, id, added, removed } => {
            if version < FIRST_STRUCTURED {
                return Err(WritingError::WrongForm);
            }
            wire::write_var_int(out, *count);
            wire::write_var_int(out, *id);
            write_patch(out, added, removed, prefixed);
            Ok(())
        },
    }
}

pub fn write_template(out: &mut Vec<u8>, item: &Item) -> (res: Result<(), WritingError>)
    ensures
        match enc_template(item@) {
            Some(bytes) => res is Ok && final(out)@ == old(out)@ + bytes,
            None => res is Err && final(out)@ == old(out)@,
        },
{
    match item {
        Item::Structured { count, id, added, removed } => {
            wire::write_var_int(out, *id);
            wire::write_var_int(out, *count);
            write_patch(out, added, removed, false);
            Ok(())
        },
        _ => Err(WritingError::WrongForm),
    }
}

// --- reading -------------------------------------------------------------------------

/// `n` ids, put behind `ids`.
pub open spec fn take_ids(ids: Seq<i32>, n: nat, s: Seq<u8>) -> Option<(Seq<i32>, Seq<u8>)>
    decreases n,
{
    if n == 0 {
        Some((ids, s))
    } else {
        match wire::take_var_int(s) {
            Some((id, rest)) => take_ids(ids.push(id), (n - 1) as nat, rest),
            None => None,
        }
    }
}

/// `n` components in the server's layout, put behind `added`.
pub open spec fn take_components(added: Seq<Component>, n: nat, s: Seq<u8>, cat: &Catalog) -> Option<
    (Seq<Component>, Seq<u8>),
>
    decreases n,
{
    if n == 0 {
        Some((added, s))
    } else {
        match wire::take_var_int(s) {
            Some((id, t)) => match catalog::layout_of(cat, id, version::V_26_3) {
                Some(layout) => match shape::take_shape(layout, t, cat, version::V_26_3) {
                    Some((data, rest)) => take_components(
                        added.push(Component { id, data }),
                        (n - 1) as nat,
                        rest,
                        cat,
                    ),
                    None => None,
                },
                None => None,
            },
            None => None,
        }
    }
}

pub open spec fn in_bounds(n: i32, limit: i32) -> bool {
    0 <= n <= limit
}

/// A stack that cannot be empty, in the server's layout.
pub open spec fn take_template(s: Seq<u8>, cat: &Catalog) -> Option<(Stack, Seq<u8>)> {
    match wire::take_var_int(s) {
        Some((id, s1)) => match wire::take_var_int(s1) {
            Some((count, s2)) => match wire::take_var_int(s2) {
                Some((to_add, s3)) => match wire::take_var_int(s3) {
                    Some((to_remove, s4)) => if !in_bounds(to_add, MAX_COMPONENTS) || !in_bounds(
                        to_remove,
                        MAX_COMPONENTS,
                    ) {
                        None
                    } else {
                        match take_components(seq![], to_add as nat, s4, cat) {
                            Some((added, s5)) => match take_ids(seq![], to_remove as nat, s5) {
                                Some((removed, rest)) => Some(
                                    (Stack::Structured { count, id, added, removed }, rest),
                                ),
                                None => None,
                            },
                            None => None,
                        }
                    },
                    None => None,
                },
                None => None,
            },
            None => None,
        },
        None => None,
    }
}

#[verifier::loop_isolation(false)]
pub fn get_ids(n: u32, r: &mut &[u8]) -> (res: Result<Vec<i32>, ReadingError>)
    ensures
        match take_ids(seq![], n as nat, old(r)@) {
            Some((ids, rest)) => res is Ok && res->Ok_0@ == ids && final(r)@ == rest,
            None => res is Err,
        },
{
    let mut ids: Vec<i32> = Vec::new();
    let mut left: u32 = n;
    while left > 0
        invariant
            take_ids(seq![], n as nat, old(r)@) == take_ids(ids@, left as nat, r@),
        decreases left,
    {
        let id: i32 = wire::get_var_int(r)?;
        ids.push(id);
        left = left - 1;
    }
    Ok(ids)
}

#[verifier::loop_isolation(false)]
fn get_components(n: u32, r: &mut &[u8], cat: &Catalog) -> (res: Result<Vec<ItemComponent>, ReadingError>)
    ensures
        match take_components(seq![], n as nat, old(r)@, cat) {
            Some((added, rest)) => res is Ok && component_views(res->Ok_0@) == added && final(r)@ == rest,
            None => res is Err,
        },
{
    let mut added: Vec<ItemComponent> = Vec::new();
    let mut left: u32 = n;
    assert(component_views(added@) =~= seq![]);
    while left > 0
        invariant
            take_components(seq![], n as nat, old(r)@, cat) == take_components(
                component_views(added@),
                left as nat,
                r@,
                cat,
            ),
        decreases left,
    {
        let ghost before = component_views(added@);
        let id: i32 = wire::get_var_int(r)?;
        let layout: &Shape = match cat.layout(id, version::V_26_3) {
            Some(layout) => layout,
            None => {
                return Err(ReadingError::Malformed);
            },
        };
        let bytes: &[u8] = shape::get_shape(layout, r, cat, version::V_26_3)?;
        let component: ItemComponent = ItemComponent { id, data: slice_to_vec(bytes) };
        let ghost view = component@;
        added.push(component);
        assert(component_views(added@) =~= before.push(view));
        left = left - 1;
    }
    Ok(added)
}

pub fn get_template(r: &mut &[u8], cat: &Catalog) -> (res: Result<Item, ReadingError>)
    ensures
        match take_template(old(r)@, cat) {
            Some((stack, rest)) => res is Ok && res->Ok_0@ == stack && final(r)@ == rest,
            None => res is Err,
        },
{
    let id: i32 = wire::get_var_int(r)?;
    let count: i32 = wire::get_var_int(r)?;
    let to_add: i32 = wire::get_var_int(r)?;
    let to_remove: i32 = wire::get_var_int(r)?;
    if to_add < 0 || to_add > 256 || to_remove < 0 || to_remove > 256 {
        return Err(ReadingError::Malformed);
    }
    let added: Vec<ItemComponent> = get_components(to_add as u32, r, cat)?;
    let removed: Vec<i32> = get_ids(to_remove as u32, r)?;
    Ok(Item::Structured { count, id, added, removed })
}

/// A stack in the form of a release before 1.20.5: a flag, the id, the count,
/// the NBT.
pub open spec fn take_nbt_stack(s: Seq<u8>, version: Version) -> Option<(Stack, Seq<u8>)> {
    match wire::take_bool(s) {
        Some((present, s1)) => if !present {
            Some((Stack::Empty, s1))
        } else {
            match wire::take_var_int(s1) {
                Some((id, s2)) => match wire::take_u8(s2) {
                    Some((count, s3)) => match nbt::take_nbt(s3, version::nbt_is_named(version)) {
                        Some((tag, rest)) => Some(
                            (Stack::Nbt { id, count: nbt::i8_of(count) as i8, nbt: tag }, rest),
                        ),
                        None => None,
                    },
                    None => None,
                },
                None => None,
            }
        },
        None => None,
    }
}

pub fn get_nbt_stack(r: &mut &[u8], version: Version) -> (res: Result<Item, ReadingError>)
    ensures
        match take_nbt_stack(old(r)@, version) {
            Some((stack, rest)) => res is Ok && res->Ok_0@ == stack && final(r)@ == rest,
            None => res is Err,
        },
{
    let present: bool = wire::get_bool(r)?;
    if !present {
        return Ok(Item::Empty);
    }
    let id: i32 = wire::get_var_int(r)?;
    let byte: u8 = wire::get_u8(r)?;
    let count: i8 = if byte < 128 {
        byte as i8
    } else {
        (byte as i16 - 256) as i8
    };
    let nbt: Option<NbtTag> = nbt::get_nbt(r, version::has_named_nbt(version))?;
    Ok(Item::Nbt { id, count, nbt })
}


// --- sizes -----------------------------------------------------------------------------

/// The payload bytes of a list of components.
pub open spec fn weight(added: Seq<Component>) -> nat
    decreases added.len(),
{
    if added.len() == 0 {
        0
    } else {
        weight(added.drop_last()) + added.last().data.len()
    }
}

pub proof fn lemma_weight_index(added: Seq<Component>, i: int)
    requires
        0 <= i < added.len(),
    ensures
        added[i].data.len() <= weight(added),
    decreases added.len(),
{
    if i < added.len() - 1 {
        lemma_weight_index(added.drop_last(), i);
    }
}

pub proof fn lemma_groups_shorter(s: Seq<u8>, left: nat)
    ensures
        wire::take_groups(s, left) matches Some((n, rest)) ==> rest.len() < s.len(),
    decreases left,
{
    if left > 0 && s.len() > 0 && s[0] >= 128 {
        lemma_groups_shorter(s.skip(1), (left - 1) as nat);
    }
}

pub proof fn lemma_var_int_shorter(s: Seq<u8>)
    ensures
        wire::take_var_int(s) matches Some((n, rest)) ==> rest.len() < s.len(),
{
    lemma_groups_shorter(s, 5);
}

proof fn lemma_components_weight(added: Seq<Component>, n: nat, s: Seq<u8>, cat: &Catalog)
    ensures
        take_components(added, n, s, cat) matches Some((all, rest)) ==> weight(all) + rest.len() <= weight(added)
            + s.len(),
    decreases n,
{
    if n > 0 {
        lemma_var_int_shorter(s);
        if let Some((id, t)) = wire::take_var_int(s) {
            if let Some(layout) = catalog::layout_of(cat, id, version::V_26_3) {
                if let Some((data, rest)) = shape::take_shape(layout, t, cat, version::V_26_3) {
                    let next = added.push(Component { id, data });
                    assert(next.drop_last() =~= added);
                    lemma_components_weight(next, (n - 1) as nat, rest, cat);
                }
            }
        }
    }
}

proof fn lemma_ids_shorter(ids: Seq<i32>, n: nat, s: Seq<u8>)
    ensures
        take_ids(ids, n, s) matches Some((all, rest)) ==> rest.len() <= s.len(),
    decreases n,
{
    if n > 0 {
        lemma_var_int_shorter(s);
        if let Some((id, rest)) = wire::take_var_int(s) {
            lemma_ids_shorter(ids.push(id), (n - 1) as nat, rest);
        }
    }
}

/// The payloads of a stack are shorter than the bytes it was read from.
pub proof fn lemma_template_weight(s: Seq<u8>, cat: &Catalog)
    ensures
        take_template(s, cat) matches Some((stack, rest)) ==> rest.len() < s.len() && (stack matches Stack::Structured {
            added,
            ..
        } ==> weight(added) < s.len()),
{
    lemma_var_int_shorter(s);
    if let Some((id, s1)) = wire::take_var_int(s) {
        lemma_var_int_shorter(s1);
        if let Some((count, s2)) = wire::take_var_int(s1) {
            lemma_var_int_shorter(s2);
            if let Some((to_add, s3)) = wire::take_var_int(s2) {
                lemma_var_int_shorter(s3);
                if let Some((to_remove, s4)) = wire::take_var_int(s3) {
                    if in_bounds(to_add, MAX_COMPONENTS) {
                        lemma_components_weight(seq![], to_add as nat, s4, cat);
                        if let Some((added, s5)) = take_components(seq![], to_add as nat, s4, cat) {
                            if in_bounds(to_remove, MAX_COMPONENTS) {
                                lemma_ids_shorter(seq![], to_remove as nat, s5);
                            }
                        }
                    }
                }
            }
        }
    }
}

} // verus!
