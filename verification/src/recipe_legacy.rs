//! Recipes for clients before 1.21.2.
//!
//! Those clients get the definitions of the recipes that the server has unlocked,
//! followed by the state of their recipe book. What the server sends does not
//! hold all of an old definition: smithing recipes are read and left out, named
//! tags and displays that only show something become empty, of several displays
//! in one place the first counts, and newer categories are folded into older
//! ones. Stonecutter recipes come without ids; they get those behind the highest.
use vstd::prelude::*;
use crate::connection::UserConnection;
use crate::item;
use crate::item::StructuredItemRewriter;
use crate::item_backup;
use crate::item_backup::ComponentHash;
use crate::item_backup::Row;
use crate::mapping;
use crate::recipe_book;
use crate::shape;
use crate::target::Target;
use crate::text;
use crate::types;
use crate::types::Item;
use crate::types::Stack;
use crate::version;
use crate::version::Version;
use crate::wire;
use crate::wire::TranslateError;

verus! {

/// The settings of a recipe book: whether each of its four parts is open, and
/// whether it is filtered.
pub const RECIPE_BOOK_SETTINGS: usize = 8;

// --- recipes -------------------------------------------------------------------------------------

pub enum RecipeData {
    Shapeless { ingredients: Vec<Vec<Item>>, result: Item },
    Shaped { width: i32, height: i32, ingredients: Vec<Vec<Item>>, result: Item },
    Furnace { ingredient: Vec<Item>, result: Item, duration: i32, experience: u32 },
    Stonecutter { ingredient: Vec<Item>, result: Item },
}

pub struct Recipe {
    pub id: i32,
    pub group: Option<i32>,
    pub category: i32,
    pub highlight: bool,
    pub data: RecipeData,
}

/// The mathematical form of what a recipe makes and of what; the experience of a
/// furnace stands as the bits of its float.
#[verifier::ext_equal]
pub enum RecipeBody {
    Shapeless { ingredients: Seq<Seq<Stack>>, result: Stack },
    Shaped { width: i32, height: i32, ingredients: Seq<Seq<Stack>>, result: Stack },
    Furnace { ingredient: Seq<Stack>, result: Stack, duration: i32, experience: u32 },
    Stonecutter { ingredient: Seq<Stack>, result: Stack },
}

#[verifier::ext_equal]
pub struct RecipeView {
    pub id: i32,
    pub group: Option<i32>,
    pub category: i32,
    pub highlight: bool,
    pub data: RecipeBody,
}

pub open spec fn stacks(items: Seq<Item>) -> Seq<Stack> {
    Seq::new(items.len(), |i: int| items[i]@)
}

pub open spec fn stack_lists(lists: Seq<Vec<Item>>) -> Seq<Seq<Stack>> {
    Seq::new(lists.len(), |i: int| stacks(lists[i]@))
}

impl View for RecipeData {
    type V = RecipeBody;

    open spec fn view(&self) -> RecipeBody {
        match *self {
            RecipeData::Shapeless { ingredients, result } => RecipeBody::Shapeless {
                ingredients: stack_lists(ingredients@),
                result: result@,
            },
            RecipeData::Shaped { width, height, ingredients, result } => RecipeBody::Shaped {
                width,
                height,
                ingredients: stack_lists(ingredients@),
                result: result@,
            },
            RecipeData::Furnace { ingredient, result, duration, experience } => RecipeBody::Furnace {
                ingredient: stacks(ingredient@),
                result: result@,
                duration,
                experience,
            },
            RecipeData::Stonecutter { ingredient, result } => RecipeBody::Stonecutter {
                ingredient: stacks(ingredient@),
                result: result@,
            },
        }
    }
}

impl View for Recipe {
    type V = RecipeView;

    open spec fn view(&self) -> RecipeView {
        RecipeView {
            id: self.id,
            group: self.group,
            category: self.category,
            highlight: self.highlight,
            data: self.data@,
        }
    }
}

pub open spec fn recipe_views(recipes: Seq<Recipe>) -> Seq<RecipeView> {
    Seq::new(recipes.len(), |i: int| recipes[i]@)
}

/// What a connection remembers of its recipes.
pub struct RecipeBookStorage {
    pub recipes: Vec<Recipe>,
    pub stonecutter_recipes: Vec<Recipe>,
    pub settings: [bool; 8],
}

#[verifier::ext_equal]
pub struct Book {
    pub recipes: Seq<RecipeView>,
    pub stonecutter_recipes: Seq<RecipeView>,
    pub settings: Seq<bool>,
}

impl View for RecipeBookStorage {
    type V = Book;

    open spec fn view(&self) -> Book {
        Book {
            recipes: recipe_views(self.recipes@),
            stonecutter_recipes: recipe_views(self.stonecutter_recipes@),
            settings: self.settings@,
        }
    }
}

/// The book of a client that has not heard of any recipe.
pub open spec fn empty_book() -> Book {
    Book {
        recipes: seq![],
        stonecutter_recipes: seq![],
        settings: Seq::new(RECIPE_BOOK_SETTINGS as nat, |i: int| false),
    }
}

impl RecipeBookStorage {
    pub fn new() -> (res: RecipeBookStorage)
        ensures
            res@ == empty_book(),
    {
        let book: RecipeBookStorage = RecipeBookStorage {
            recipes: Vec::new(),
            stonecutter_recipes: Vec::new(),
            settings: [false, false, false, false, false, false, false, false],
        };
        assert(book@ =~= empty_book());
        book
    }
}

// --- reading displays ------------------------------------------------------------------------------

/// What a reading step leaves: the connection's backups, and the value with what
/// stands behind it, or why there is none.
pub type Taken<T> = (Seq<Row>, Result<(T, Seq<u8>), TranslateError>);

/// A stack of the server for the client, with what it loses kept back.
pub open spec fn lowered(rows: Seq<Row>, native: Stack, hashes: Seq<ComponentHash>, to: &Target) -> (
    Seq<Row>,
    Stack,
) {
    item_backup::backed_up(rows, native, item::stack_to_version(native, to), hashes, to)
}

/// One of an item, as the server has it.
pub open spec fn single(id: i32) -> Stack {
    Stack::Structured { count: 1, id, added: seq![], removed: seq![] }
}

/// The stand-in for a stack that is not known.
pub open spec fn placeholder(to: &Target) -> Stack {
    item::stack_to_version(single(1), to)
}

/// A list with a stack behind it, where the client has the item.
pub open spec fn with_stack(items: Seq<Stack>, stack: Stack) -> Seq<Stack> {
    if stack is Empty {
        items
    } else {
        items.push(stack)
    }
}

/// `n` items by their ids, put behind `items`.
pub open spec fn take_items(
    items: Seq<Stack>,
    n: nat,
    rows: Seq<Row>,
    s: Seq<u8>,
    hashes: Seq<ComponentHash>,
    to: &Target,
) -> Taken<Seq<Stack>>
    decreases n,
{
    if n == 0 {
        (rows, Ok((items, s)))
    } else {
        match wire::take_var_int(s) {
            Some((id, rest)) => if id < 0 {
                (rows, Err(TranslateError::ItemNumber))
            } else {
                let (kept, stack) = lowered(rows, single(id), hashes, to);
                take_items(with_stack(items, stack), (n - 1) as nat, kept, rest, hashes, to)
            },
            None => (rows, Err(TranslateError::Malformed)),
        }
    }
}

/// The items of a set: those listed; for the name of a tag those in `named`.
pub open spec fn take_holder_set(
    rows: Seq<Row>,
    s: Seq<u8>,
    named: Seq<Stack>,
    hashes: Seq<ComponentHash>,
    to: &Target,
) -> Taken<Seq<Stack>> {
    match wire::take_var_int(s) {
        Some((selector, t)) => if selector == 0 {
            (
                rows,
                match wire::take_str(t) {
                    Some((tag, rest)) => Ok((named, rest)),
                    None => Err(TranslateError::Malformed),
                },
            )
        } else if selector < 0 || selector - 1 > recipe_book::MAX_RECIPE_LIST {
            (rows, Err(TranslateError::ItemSet))
        } else {
            take_items(seq![], (selector - 1) as nat, rows, t, hashes, to)
        },
        None => (rows, Err(TranslateError::Malformed)),
    }
}

/// What stands behind the displays inside one of the given kind.
pub open spec fn drop_tail(kind: i32, s: Seq<u8>, to: &Target) -> Result<Seq<u8>, TranslateError> {
    if kind == recipe_book::SLOT_DISPLAY_ONLY_WITH_COMPONENT {
        match wire::take_var_int(s) {
            Some((component, rest)) => if component < 0 {
                Err(TranslateError::ComponentNumber)
            } else {
                Ok(rest)
            },
            None => Err(TranslateError::Malformed),
        }
    } else if kind == recipe_book::SLOT_DISPLAY_SMITHING_TRIM {
        match shape::drop_shape(recipe_book::pattern_shape(), s, to.cat, version::V_26_3) {
            Some(rest) => Ok(rest),
            None => Err(TranslateError::Malformed),
        }
    } else {
        Ok(s)
    }
}

/// A display of one item or stack.
pub open spec fn take_shown(
    rows: Seq<Row>,
    kind: i32,
    s: Seq<u8>,
    hashes: Seq<ComponentHash>,
    to: &Target,
) -> Taken<Seq<Stack>> {
    if kind == recipe_book::SLOT_DISPLAY_ITEM {
        take_items(seq![], 1, rows, s, hashes, to)
    } else {
        match types::take_template(s, to.cat) {
            Some((native, rest)) => {
                let (kept, stack) = lowered(rows, native, hashes, to);
                (kept, Ok((with_stack(seq![], stack), rest)))
            },
            None => (rows, Err(TranslateError::Malformed)),
        }
    }
}

/// The items that a display stands for.
pub open spec fn take_slot(rows: Seq<Row>, s: Seq<u8>, hashes: Seq<ComponentHash>, to: &Target) -> Taken<Seq<Stack>>
    decreases s.len(), 0int, 0nat,
{
    match wire::take_var_int(s) {
        None => (rows, Err(TranslateError::Malformed)),
        Some((kind, t)) => {
            proof {
                types::lemma_var_int_shorter(s);
            }
            if kind == recipe_book::SLOT_DISPLAY_EMPTY || kind == recipe_book::SLOT_DISPLAY_ANY_FUEL {
                (rows, Ok((seq![], t)))
            } else if kind == recipe_book::SLOT_DISPLAY_ITEM || kind == recipe_book::SLOT_DISPLAY_ITEM_STACK {
                take_shown(rows, kind, t, hashes, to)
            } else if kind == recipe_book::SLOT_DISPLAY_TAG {
                take_holder_set(rows, t, seq![], hashes, to)
            } else if kind == recipe_book::SLOT_DISPLAY_COMPOSITE {
                match take_slot_list(rows, t, hashes, to) {
                    (kept, Ok((lists, rest))) => (kept, Ok((first_list(lists), rest))),
                    (kept, Err(error)) => (kept, Err(error)),
                }
            } else if let Some(n) = recipe_book::inner_displays(kind) {
                take_inner(kind, n, rows, t, hashes, to)
            } else {
                (rows, Err(TranslateError::UnknownDisplay))
            }
        },
    }
}

/// The first of several lists of items.
pub open spec fn first_list(lists: Seq<Seq<Stack>>) -> Seq<Stack> {
    if lists.len() == 0 {
        seq![]
    } else {
        lists[0]
    }
}

/// The displays inside one of the given kind, which only show something.
pub open spec fn take_inner(
    kind: i32,
    n: nat,
    rows: Seq<Row>,
    s: Seq<u8>,
    hashes: Seq<ComponentHash>,
    to: &Target,
) -> Taken<Seq<Stack>>
    decreases s.len(), 2int, 0nat,
{
    match take_slots(seq![], n, rows, s, hashes, to) {
        (kept, Ok((lists, rest))) => (
            kept,
            match drop_tail(kind, rest, to) {
                Ok(end) => Ok((seq![], end)),
                Err(error) => Err(error),
            },
        ),
        (kept, Err(error)) => (kept, Err(error)),
    }
}

/// A counted list of displays.
pub open spec fn take_slot_list(
    rows: Seq<Row>,
    s: Seq<u8>,
    hashes: Seq<ComponentHash>,
    to: &Target,
) -> Taken<Seq<Seq<Stack>>>
    decreases s.len(), 2int, 0nat,
{
    match wire::take_var_int(s) {
        Some((n, t)) => if n < 0 || n > recipe_book::MAX_RECIPE_LIST {
            (rows, Err(TranslateError::Count))
        } else {
            proof {
                types::lemma_var_int_shorter(s);
            }
            take_slots(seq![], n as nat, rows, t, hashes, to)
        },
        None => (rows, Err(TranslateError::Malformed)),
    }
}

/// `n` displays, put behind `lists`. Each is at least one byte long.
pub open spec fn take_slots(
    lists: Seq<Seq<Stack>>,
    n: nat,
    rows: Seq<Row>,
    s: Seq<u8>,
    hashes: Seq<ComponentHash>,
    to: &Target,
) -> Taken<Seq<Seq<Stack>>>
    decreases s.len(), 1int, n,
{
    if n == 0 {
        (rows, Ok((lists, s)))
    } else {
        match take_slot(rows, s, hashes, to) {
            (kept, Ok((items, rest))) => if rest.len() < s.len() {
                take_slots(lists.push(items), (n - 1) as nat, kept, rest, hashes, to)
            } else {
                (kept, Err(TranslateError::Malformed))
            },
            (kept, Err(error)) => (kept, Err(error)),
        }
    }
}

/// Whether a reading function left the connection as wanted.
pub open spec fn kept(before: UserConnection, after: UserConnection, rows: Seq<Row>) -> bool {
    after.backups@ == rows && item_backup::same_but_backups(after, before)
}

/// Whether a reading function gave the items that were wanted, or the error.
pub open spec fn gave(
    res: Result<Vec<Item>, TranslateError>,
    after: Seq<u8>,
    wanted: Result<(Seq<Stack>, Seq<u8>), TranslateError>,
) -> bool {
    match wanted {
        Ok((items, rest)) => res is Ok && stacks(res->Ok_0@) == items && after == rest,
        Err(error) => res is Err && res->Err_0 == error,
    }
}

pub open spec fn gave_lists(
    res: Result<Vec<Vec<Item>>, TranslateError>,
    after: Seq<u8>,
    wanted: Result<(Seq<Seq<Stack>>, Seq<u8>), TranslateError>,
) -> bool {
    match wanted {
        Ok((lists, rest)) => res is Ok && stack_lists(res->Ok_0@) == lists && after == rest,
        Err(error) => res is Err && res->Err_0 == error,
    }
}

fn lower_item(connection: &mut UserConnection, native: &Item, hashes: &Vec<ComponentHash>, to: &Target) -> (res: Item)
    ensures
        lowered(old(connection).backups@, native@, hashes@, to) == (final(connection).backups@, res@),
        item_backup::same_but_backups(*final(connection), *old(connection)),
{
    let mapped: Item = StructuredItemRewriter::to_version(native, to);
    item_backup::backup_clientbound_item(connection, native, mapped, hashes, to)
}

fn single_item(id: i32) -> (res: Item)
    ensures
        res@ == single(id),
{
    let item: Item = Item::Structured { count: 1, id, added: Vec::new(), removed: Vec::new() };
    assert(item@ =~= single(id));
    item
}

fn placeholder_item(to: &Target) -> (res: Item)
    ensures
        res@ == placeholder(to),
{
    StructuredItemRewriter::to_version(&single_item(1), to)
}

fn push_item(items: &mut Vec<Item>, item: Item)
    ensures
        stacks(final(items)@) == with_stack(stacks(old(items)@), item@),
{
    if !item.is_empty() {
        let ghost before = stacks(items@);
        let ghost view = item@;
        items.push(item);
        assert(stacks(items@) =~= before.push(view));
    }
}

#[verifier::loop_isolation(false)]
fn read_items(
    n: u32,
    connection: &mut UserConnection,
    r: &mut &[u8],
    hashes: &Vec<ComponentHash>,
    to: &Target,
) -> (res: Result<Vec<Item>, TranslateError>)
    ensures
        ({
            let wanted = take_items(seq![], n as nat, old(connection).backups@, old(r)@, hashes@, to);
            kept(*old(connection), *final(connection), wanted.0) && gave(res, final(r)@, wanted.1)
        }),
{
    let ghost wanted = take_items(seq![], n as nat, connection.backups@, r@, hashes@, to);
    let mut items: Vec<Item> = Vec::new();
    assert(stacks(items@) =~= seq![]);
    let mut left: u32 = n;
    while left > 0
        invariant
            item_backup::same_but_backups(*connection, *old(connection)),
            wanted == take_items(stacks(items@), left as nat, connection.backups@, r@, hashes@, to),
        decreases left,
    {
        let id: i32 = wire::or_malformed(wire::get_var_int(r))?;
        if id < 0 {
            return Err(TranslateError::ItemNumber);
        }
        let item: Item = lower_item(connection, &single_item(id), hashes, to);
        push_item(&mut items, item);
        left = left - 1;
    }
    Ok(items)
}

/// Reads a set of items. The name of a tag says nothing of its items: it stands
/// for the placeholder in the input of a stonecutter, and else for none.
pub fn read_holder_set_items(
    connection: &mut UserConnection,
    r: &mut &[u8],
    stonecutter_input: bool,
    hashes: &Vec<ComponentHash>,
    to: &Target,
) -> (res: Result<Vec<Item>, TranslateError>)
    ensures
        ({
            let wanted = take_holder_set(
                old(connection).backups@,
                old(r)@,
                if stonecutter_input {
                    seq![placeholder(to)]
                } else {
                    seq![]
                },
                hashes@,
                to,
            );
            kept(*old(connection), *final(connection), wanted.0) && gave(res, final(r)@, wanted.1)
        }),
{
    let selector: i32 = wire::or_malformed(wire::get_var_int(r))?;
    if selector == 0 {
        let tag: &[u8] = wire::or_malformed(wire::get_str(r))?;
        let mut items: Vec<Item> = Vec::new();
        if stonecutter_input {
            items.push(placeholder_item(to));
            assert(stacks(items@) =~= seq![placeholder(to)]);
        } else {
            assert(stacks(items@) =~= seq![]);
        }
        return Ok(items);
    }
    if selector < 0 || selector - 1 > recipe_book::MAX_RECIPE_LIST {
        return Err(TranslateError::ItemSet);
    }
    read_items((selector - 1) as u32, connection, r, hashes, to)
}

fn skip_tail(kind: i32, r: &mut &[u8], to: &Target) -> (res: Result<(), TranslateError>)
    ensures
        recipe_book::ended(res, final(r)@, drop_tail(kind, old(r)@, to)),
{
    if kind == recipe_book::SLOT_DISPLAY_ONLY_WITH_COMPONENT {
        let component: i32 = wire::or_malformed(wire::get_var_int(r))?;
        if component < 0 {
            return Err(TranslateError::ComponentNumber);
        }
        Ok(())
    } else if kind == recipe_book::SLOT_DISPLAY_SMITHING_TRIM {
        wire::or_malformed(shape::skip(&recipe_book::pattern_shape(), r, to.cat, version::V_26_3))
    } else {
        Ok(())
    }
}

fn read_shown(
    kind: i32,
    connection: &mut UserConnection,
    r: &mut &[u8],
    hashes: &Vec<ComponentHash>,
    to: &Target,
) -> (res: Result<Vec<Item>, TranslateError>)
    ensures
        ({
            let wanted = take_shown(old(connection).backups@, kind, old(r)@, hashes@, to);
            kept(*old(connection), *final(connection), wanted.0) && gave(res, final(r)@, wanted.1)
        }),
{
    if kind == recipe_book::SLOT_DISPLAY_ITEM {
        read_items(1, connection, r, hashes, to)
    } else {
        let native: Item = wire::or_malformed(types::get_template(r, to.cat))?;
        let item: Item = lower_item(connection, &native, hashes, to);
        let mut items: Vec<Item> = Vec::new();
        assert(stacks(items@) =~= seq![]);
        push_item(&mut items, item);
        Ok(items)
    }
}

fn read_inner(
    kind: i32,
    n: u32,
    connection: &mut UserConnection,
    r: &mut &[u8],
    hashes: &Vec<ComponentHash>,
    to: &Target,
) -> (res: Result<Vec<Item>, TranslateError>)
    ensures
        ({
            let wanted = take_inner(kind, n as nat, old(connection).backups@, old(r)@, hashes@, to);
            kept(*old(connection), *final(connection), wanted.0) && gave(res, final(r)@, wanted.1)
        }),
    decreases old(r)@.len(), 2int, 0nat,
{
    let _shown: Vec<Vec<Item>> = read_slots(n, connection, r, hashes, to)?;
    skip_tail(kind, r, to)?;
    let none: Vec<Item> = Vec::new();
    assert(stacks(none@) =~= seq![]);
    Ok(none)
}

/// Reads a display, and gives the items it stands for.
#[verifier::spinoff_prover]
#[verifier::rlimit(60)]
pub fn read_slot_display(
    connection: &mut UserConnection,
    r: &mut &[u8],
    hashes: &Vec<ComponentHash>,
    to: &Target,
) -> (res: Result<Vec<Item>, TranslateError>)
    ensures
        ({
            let wanted = take_slot(old(connection).backups@, old(r)@, hashes@, to);
            kept(*old(connection), *final(connection), wanted.0) && gave(res, final(r)@, wanted.1)
        }),
    decreases old(r)@.len(), 0int, 0nat,
{
    proof {
        types::lemma_var_int_shorter(r@);
    }
    let kind: i32 = wire::or_malformed(wire::get_var_int(r))?;
    if kind == recipe_book::SLOT_DISPLAY_ITEM || kind == recipe_book::SLOT_DISPLAY_ITEM_STACK {
        return read_shown(kind, connection, r, hashes, to);
    }
    if kind == recipe_book::SLOT_DISPLAY_TAG {
        return read_holder_set_items(connection, r, false, hashes, to);
    }
    let none: Vec<Item> = Vec::new();
    assert(stacks(none@) =~= seq![]);
    if kind == recipe_book::SLOT_DISPLAY_EMPTY || kind == recipe_book::SLOT_DISPLAY_ANY_FUEL {
        return Ok(none);
    }
    if kind == recipe_book::SLOT_DISPLAY_COMPOSITE {
        let mut lists: Vec<Vec<Item>> = read_slot_display_list(connection, r, hashes, to)?;
        if lists.len() == 0 {
            return Ok(none);
        }
        assert(stack_lists(lists@)[0] == stacks(lists@[0]@));
        return Ok(lists.swap_remove(0));
    }
    let n: u32 = recipe_book::count_inner(kind);
    if n == 0 {
        return Err(TranslateError::UnknownDisplay);
    }
    read_inner(kind, n, connection, r, hashes, to)
}

/// Reads a counted list of displays.
pub fn read_slot_display_list(
    connection: &mut UserConnection,
    r: &mut &[u8],
    hashes: &Vec<ComponentHash>,
    to: &Target,
) -> (res: Result<Vec<Vec<Item>>, TranslateError>)
    ensures
        ({
            let wanted = take_slot_list(old(connection).backups@, old(r)@, hashes@, to);
            kept(*old(connection), *final(connection), wanted.0) && gave_lists(res, final(r)@, wanted.1)
        }),
    decreases old(r)@.len(), 2int, 0nat,
{
    proof {
        types::lemma_var_int_shorter(r@);
    }
    let n: i32 = wire::or_malformed(wire::get_var_int(r))?;
    if n < 0 || n > recipe_book::MAX_RECIPE_LIST {
        return Err(TranslateError::Count);
    }
    read_slots(n as u32, connection, r, hashes, to)
}

#[verifier::loop_isolation(false)]
fn read_slots(
    n: u32,
    connection: &mut UserConnection,
    r: &mut &[u8],
    hashes: &Vec<ComponentHash>,
    to: &Target,
) -> (res: Result<Vec<Vec<Item>>, TranslateError>)
    ensures
        ({
            let wanted = take_slots(seq![], n as nat, old(connection).backups@, old(r)@, hashes@, to);
            kept(*old(connection), *final(connection), wanted.0) && gave_lists(res, final(r)@, wanted.1)
        }),
    decreases old(r)@.len(), 1int, n as nat,
{
    let ghost start = r@;
    let ghost wanted = take_slots(seq![], n as nat, connection.backups@, r@, hashes@, to);
    let mut lists: Vec<Vec<Item>> = Vec::new();
    assert(stack_lists(lists@) =~= seq![]);
    let mut left: u32 = n;
    while left > 0
        invariant
            left <= n,
            r@.len() <= start.len(),
            left < n ==> r@.len() < start.len(),
            item_backup::same_but_backups(*connection, *old(connection)),
            wanted == take_slots(stack_lists(lists@), left as nat, connection.backups@, r@, hashes@, to),
        decreases left,
    {
        let length: usize = r.len();
        let ghost before = stack_lists(lists@);
        let items: Vec<Item> = read_slot_display(connection, r, hashes, to)?;
        if r.len() >= length {
            return Err(TranslateError::Malformed);
        }
        let ghost view = stacks(items@);
        lists.push(items);
        assert(stack_lists(lists@) =~= before.push(view));
        left = left - 1;
    }
    Ok(lists)
}

// --- reading recipes -----------------------------------------------------------------------------------

/// The first of the items that a display stands for, or the placeholder.
pub open spec fn first_or_placeholder(items: Seq<Stack>, to: &Target) -> Stack {
    if items.len() == 0 {
        placeholder(to)
    } else {
        items[0]
    }
}

pub open spec fn take_single(rows: Seq<Row>, s: Seq<u8>, hashes: Seq<ComponentHash>, to: &Target) -> Taken<Stack> {
    match take_slot(rows, s, hashes, to) {
        (rows1, Ok((items, rest))) => (rows1, Ok((first_or_placeholder(items, to), rest))),
        (rows1, Err(error)) => (rows1, Err(error)),
    }
}

/// The result of a crafting recipe, in front of the display of its station.
pub open spec fn take_crafted(rows: Seq<Row>, s: Seq<u8>, hashes: Seq<ComponentHash>, to: &Target) -> Taken<Stack> {
    match take_single(rows, s, hashes, to) {
        (rows1, Ok((result, t))) => match take_slot(rows1, t, hashes, to) {
            (rows2, Ok((station, rest))) => (rows2, Ok((result, rest))),
            (rows2, Err(error)) => (rows2, Err(error)),
        },
        (rows1, Err(error)) => (rows1, Err(error)),
    }
}

pub open spec fn take_shapeless(rows: Seq<Row>, s: Seq<u8>, hashes: Seq<ComponentHash>, to: &Target) -> Taken<
    Option<RecipeBody>,
> {
    match take_slot_list(rows, s, hashes, to) {
        (rows1, Ok((ingredients, t))) => match take_crafted(rows1, t, hashes, to) {
            (rows2, Ok((result, rest))) => (
                rows2,
                Ok((Some(RecipeBody::Shapeless { ingredients, result }), rest)),
            ),
            (rows2, Err(error)) => (rows2, Err(error)),
        },
        (rows1, Err(error)) => (rows1, Err(error)),
    }
}

/// The ingredients of a shaped recipe fill its grid, which is at most three by
/// three.
pub open spec fn take_shaped(rows: Seq<Row>, s: Seq<u8>, hashes: Seq<ComponentHash>, to: &Target) -> Taken<
    Option<RecipeBody>,
> {
    match wire::take_var_int(s) {
        Some((width, s1)) => match wire::take_var_int(s1) {
            Some((height, s2)) => if !(1 <= width <= 3) || !(1 <= height <= 3) {
                (rows, Err(TranslateError::GridSize))
            } else {
                match take_slot_list(rows, s2, hashes, to) {
                    (rows1, Ok((ingredients, t))) => if ingredients.len() != width * height {
                        (rows1, Err(TranslateError::GridFill))
                    } else {
                        match take_crafted(rows1, t, hashes, to) {
                            (rows2, Ok((result, rest))) => (
                                rows2,
                                Ok((Some(RecipeBody::Shaped { width, height, ingredients, result }), rest)),
                            ),
                            (rows2, Err(error)) => (rows2, Err(error)),
                        }
                    },
                    (rows1, Err(error)) => (rows1, Err(error)),
                }
            },
            None => (rows, Err(TranslateError::Malformed)),
        },
        None => (rows, Err(TranslateError::Malformed)),
    }
}

/// A furnace recipe: the ingredient, the fuel, the result, the station, how long
/// it takes and what experience it gives.
pub open spec fn take_furnace(rows: Seq<Row>, s: Seq<u8>, hashes: Seq<ComponentHash>, to: &Target) -> Taken<
    Option<RecipeBody>,
> {
    match take_slots(seq![], 2, rows, s, hashes, to) {
        (rows1, Ok((lists, t))) => match take_crafted(rows1, t, hashes, to) {
            (rows2, Ok((result, u))) => (
                rows2,
                match wire::take_var_int(u) {
                    Some((duration, v)) => match wire::take_u32(v) {
                        Some((experience, rest)) => Ok(
                            (
                                Some(
                                    RecipeBody::Furnace { ingredient: lists[0], result, duration, experience },
                                ),
                                rest,
                            ),
                        ),
                        None => Err(TranslateError::Malformed),
                    },
                    None => Err(TranslateError::Malformed),
                },
            ),
            (rows2, Err(error)) => (rows2, Err(error)),
        },
        (rows1, Err(error)) => (rows1, Err(error)),
    }
}

/// `n` displays of a recipe that is left out.
pub open spec fn take_left_out(n: nat, rows: Seq<Row>, s: Seq<u8>, hashes: Seq<ComponentHash>, to: &Target) -> Taken<
    Option<RecipeBody>,
> {
    match take_slots(seq![], n, rows, s, hashes, to) {
        (rows1, Ok((lists, rest))) => (rows1, Ok((None, rest))),
        (rows1, Err(error)) => (rows1, Err(error)),
    }
}

/// What a recipe makes and of what. A stonecutter's comes with another packet,
/// and an old smithing recipe cannot be put together.
pub open spec fn take_data(kind: i32, rows: Seq<Row>, s: Seq<u8>, hashes: Seq<ComponentHash>, to: &Target) -> Taken<
    Option<RecipeBody>,
> {
    if kind == 0 {
        take_shapeless(rows, s, hashes, to)
    } else if kind == 1 {
        take_shaped(rows, s, hashes, to)
    } else if kind == 2 {
        take_furnace(rows, s, hashes, to)
    } else if kind == 3 {
        take_left_out(3, rows, s, hashes, to)
    } else if kind == 4 {
        take_left_out(5, rows, s, hashes, to)
    } else {
        (rows, Err(TranslateError::UnknownRecipe))
    }
}

/// What stands behind `n` sets of items.
pub open spec fn drop_holder_sets(n: nat, rows: Seq<Row>, s: Seq<u8>, hashes: Seq<ComponentHash>, to: &Target) -> (
    Seq<Row>,
    Result<Seq<u8>, TranslateError>,
)
    decreases n,
{
    if n == 0 {
        (rows, Ok(s))
    } else {
        match take_holder_set(rows, s, seq![], hashes, to) {
            (rows1, Ok((items, rest))) => drop_holder_sets((n - 1) as nat, rows1, rest, hashes, to),
            (rows1, Err(error)) => (rows1, Err(error)),
        }
    }
}

/// What stands behind the ingredients that a recipe asks for.
pub open spec fn drop_requirements(rows: Seq<Row>, s: Seq<u8>, hashes: Seq<ComponentHash>, to: &Target) -> (
    Seq<Row>,
    Result<Seq<u8>, TranslateError>,
) {
    match wire::take_bool(s) {
        Some((present, t)) => if !present {
            (rows, Ok(t))
        } else {
            match wire::take_var_int(t) {
                Some((n, u)) => if n < 0 || n > recipe_book::MAX_RECIPE_LIST {
                    (rows, Err(TranslateError::Count))
                } else {
                    drop_holder_sets(n as nat, rows, u, hashes, to)
                },
                None => (rows, Err(TranslateError::Malformed)),
            }
        },
        None => (rows, Err(TranslateError::Malformed)),
    }
}

/// The group of a recipe, by the number that stands for it.
pub open spec fn group_of(encoded: i32) -> Option<i32> {
    if encoded == 0 {
        None
    } else {
        Some((encoded - 1) as i32)
    }
}

/// The end of a recipe: its group, its category, whether it is highlighted.
pub open spec fn take_end(rows: Seq<Row>, s: Seq<u8>, hashes: Seq<ComponentHash>, to: &Target) -> Taken<
    (Option<i32>, i32, bool),
> {
    match wire::take_var_int(s) {
        Some((encoded, s1)) => if encoded < 0 {
            (rows, Err(TranslateError::GroupNumber))
        } else {
            match wire::take_var_int(s1) {
                Some((category, s2)) => if category < 0 {
                    (rows, Err(TranslateError::CategoryNumber))
                } else {
                    match drop_requirements(rows, s2, hashes, to) {
                        (rows1, Ok(s3)) => (
                            rows1,
                            match wire::take_u8(s3) {
                                Some((flags, rest)) => Ok(
                                    ((group_of(encoded), category, flags / 2 % 2 == 1), rest),
                                ),
                                None => Err(TranslateError::Malformed),
                            },
                        ),
                        (rows1, Err(error)) => (rows1, Err(error)),
                    }
                },
                None => (rows, Err(TranslateError::Malformed)),
            }
        },
        None => (rows, Err(TranslateError::Malformed)),
    }
}

/// A recipe; none where its kind is left out.
pub open spec fn take_recipe(rows: Seq<Row>, s: Seq<u8>, hashes: Seq<ComponentHash>, to: &Target) -> Taken<
    Option<RecipeView>,
> {
    match wire::take_var_int(s) {
        Some((id, s1)) => if id < 0 {
            (rows, Err(TranslateError::Identifier))
        } else {
            match wire::take_var_int(s1) {
                Some((kind, s2)) => match take_data(kind, rows, s2, hashes, to) {
                    (rows1, Ok((data, s3))) => match take_end(rows1, s3, hashes, to) {
                        (rows2, Ok(((group, category, highlight), rest))) => (
                            rows2,
                            Ok(
                                (
                                    match data {
                                        Some(data) => Some(
                                            RecipeView { id, group, category, highlight, data },
                                        ),
                                        None => None,
                                    },
                                    rest,
                                ),
                            ),
                        ),
                        (rows2, Err(error)) => (rows2, Err(error)),
                    },
                    (rows1, Err(error)) => (rows1, Err(error)),
                },
                None => (rows, Err(TranslateError::Malformed)),
            }
        },
        None => (rows, Err(TranslateError::Malformed)),
    }
}

pub open spec fn gave_stack(res: Result<Item, TranslateError>, after: Seq<u8>, wanted: Result<(Stack, Seq<u8>), TranslateError>) -> bool {
    match wanted {
        Ok((stack, rest)) => res is Ok && res->Ok_0@ == stack && after == rest,
        Err(error) => res is Err && res->Err_0 == error,
    }
}

pub open spec fn gave_data(
    res: Result<Option<RecipeData>, TranslateError>,
    after: Seq<u8>,
    wanted: Result<(Option<RecipeBody>, Seq<u8>), TranslateError>,
) -> bool {
    match wanted {
        Ok((data, rest)) => res is Ok && after == rest && match res->Ok_0 {
            Some(found) => data == Some(found@),
            None => data is None,
        },
        Err(error) => res is Err && res->Err_0 == error,
    }
}

/// Reads a display, and gives the first of the items it stands for.
pub fn read_single_slot_display(
    connection: &mut UserConnection,
    r: &mut &[u8],
    hashes: &Vec<ComponentHash>,
    to: &Target,
) -> (res: Result<Item, TranslateError>)
    ensures
        ({
            let wanted = take_single(old(connection).backups@, old(r)@, hashes@, to);
            kept(*old(connection), *final(connection), wanted.0) && gave_stack(res, final(r)@, wanted.1)
        }),
{
    let mut items: Vec<Item> = read_slot_display(connection, r, hashes, to)?;
    if items.len() == 0 {
        Ok(placeholder_item(to))
    } else {
        assert(stacks(items@)[0] == items@[0]@);
        Ok(items.swap_remove(0))
    }
}

fn read_crafted(connection: &mut UserConnection, r: &mut &[u8], hashes: &Vec<ComponentHash>, to: &Target) -> (res:
    Result<Item, TranslateError>)
    ensures
        ({
            let wanted = take_crafted(old(connection).backups@, old(r)@, hashes@, to);
            kept(*old(connection), *final(connection), wanted.0) && gave_stack(res, final(r)@, wanted.1)
        }),
{
    let result: Item = read_single_slot_display(connection, r, hashes, to)?;
    let _station: Vec<Item> = read_slot_display(connection, r, hashes, to)?;
    Ok(result)
}

fn read_shaped(connection: &mut UserConnection, r: &mut &[u8], hashes: &Vec<ComponentHash>, to: &Target) -> (res:
    Result<Option<RecipeData>, TranslateError>)
    ensures
        ({
            let wanted = take_shaped(old(connection).backups@, old(r)@, hashes@, to);
            kept(*old(connection), *final(connection), wanted.0) && gave_data(res, final(r)@, wanted.1)
        }),
{
    let width: i32 = wire::or_malformed(wire::get_var_int(r))?;
    let height: i32 = wire::or_malformed(wire::get_var_int(r))?;
    if width < 1 || width > 3 || height < 1 || height > 3 {
        return Err(TranslateError::GridSize);
    }
    let ingredients: Vec<Vec<Item>> = read_slot_display_list(connection, r, hashes, to)?;
    assert(1 <= width * height <= 9) by (nonlinear_arith)
        requires
            1 <= width <= 3,
            1 <= height <= 3,
    ;
    if ingredients.len() != (width * height) as usize {
        return Err(TranslateError::GridFill);
    }
    let result: Item = read_crafted(connection, r, hashes, to)?;
    Ok(Some(RecipeData::Shaped { width, height, ingredients, result }))
}

fn read_furnace(connection: &mut UserConnection, r: &mut &[u8], hashes: &Vec<ComponentHash>, to: &Target) -> (res:
    Result<Option<RecipeData>, TranslateError>)
    ensures
        ({
            let wanted = take_furnace(old(connection).backups@, old(r)@, hashes@, to);
            kept(*old(connection), *final(connection), wanted.0) && gave_data(res, final(r)@, wanted.1)
        }),
{
    proof {
        lemma_slots_len(seq![], 2, connection.backups@, r@, hashes@, to);
    }
    let mut lists: Vec<Vec<Item>> = read_slots(2, connection, r, hashes, to)?;
    assert(stack_lists(lists@)[0] == stacks(lists@[0]@));
    let result: Item = read_crafted(connection, r, hashes, to)?;
    let duration: i32 = wire::or_malformed(wire::get_var_int(r))?;
    let experience: u32 = wire::or_malformed(wire::get_u32(r))?;
    Ok(Some(RecipeData::Furnace { ingredient: lists.swap_remove(0), result, duration, experience }))
}

proof fn lemma_slots_len(
    lists: Seq<Seq<Stack>>,
    n: nat,
    rows: Seq<Row>,
    s: Seq<u8>,
    hashes: Seq<ComponentHash>,
    to: &Target,
)
    ensures
        take_slots(lists, n, rows, s, hashes, to).1 matches Ok((all, rest)) ==> all.len() == lists.len() + n,
    decreases n,
{
    if n > 0 {
        if let (rows1, Ok((items, rest))) = take_slot(rows, s, hashes, to) {
            if rest.len() < s.len() {
                lemma_slots_len(lists.push(items), (n - 1) as nat, rows1, rest, hashes, to);
            }
        }
    }
}

fn read_data(
    kind: i32,
    connection: &mut UserConnection,
    r: &mut &[u8],
    hashes: &Vec<ComponentHash>,
    to: &Target,
) -> (res: Result<Option<RecipeData>, TranslateError>)
    ensures
        ({
            let wanted = take_data(kind, old(connection).backups@, old(r)@, hashes@, to);
            kept(*old(connection), *final(connection), wanted.0) && gave_data(res, final(r)@, wanted.1)
        }),
{
    if kind == 0 {
        let ingredients: Vec<Vec<Item>> = read_slot_display_list(connection, r, hashes, to)?;
        let result: Item = read_crafted(connection, r, hashes, to)?;
        Ok(Some(RecipeData::Shapeless { ingredients, result }))
    } else if kind == 1 {
        read_shaped(connection, r, hashes, to)
    } else if kind == 2 {
        read_furnace(connection, r, hashes, to)
    } else if kind == 3 {
        let lists: Vec<Vec<Item>> = read_slots(3, connection, r, hashes, to)?;
        Ok(None)
    } else if kind == 4 {
        let lists: Vec<Vec<Item>> = read_slots(5, connection, r, hashes, to)?;
        Ok(None)
    } else {
        Err(TranslateError::UnknownRecipe)
    }
}

#[verifier::loop_isolation(false)]
fn skip_holder_sets(
    n: u32,
    connection: &mut UserConnection,
    r: &mut &[u8],
    hashes: &Vec<ComponentHash>,
    to: &Target,
) -> (res: Result<(), TranslateError>)
    ensures
        ({
            let wanted = drop_holder_sets(n as nat, old(connection).backups@, old(r)@, hashes@, to);
            kept(*old(connection), *final(connection), wanted.0) && match wanted.1 {
                Ok(rest) => res is Ok && final(r)@ == rest,
                Err(error) => res is Err && res->Err_0 == error,
            }
        }),
{
    let ghost wanted = drop_holder_sets(n as nat, connection.backups@, r@, hashes@, to);
    let mut left: u32 = n;
    while left > 0
        invariant
            item_backup::same_but_backups(*connection, *old(connection)),
            wanted == drop_holder_sets(left as nat, connection.backups@, r@, hashes@, to),
        decreases left,
    {
        let items: Vec<Item> = read_holder_set_items(connection, r, false, hashes, to)?;
        left = left - 1;
    }
    Ok(())
}

fn skip_requirements(connection: &mut UserConnection, r: &mut &[u8], hashes: &Vec<ComponentHash>, to: &Target) -> (res:
    Result<(), TranslateError>)
    ensures
        ({
            let wanted = drop_requirements(old(connection).backups@, old(r)@, hashes@, to);
            kept(*old(connection), *final(connection), wanted.0) && match wanted.1 {
                Ok(rest) => res is Ok && final(r)@ == rest,
                Err(error) => res is Err && res->Err_0 == error,
            }
        }),
{
    let present: bool = wire::or_malformed(wire::get_bool(r))?;
    if !present {
        return Ok(());
    }
    let n: i32 = wire::or_malformed(wire::get_var_int(r))?;
    if n < 0 || n > recipe_book::MAX_RECIPE_LIST {
        return Err(TranslateError::Count);
    }
    skip_holder_sets(n as u32, connection, r, hashes, to)
}

fn read_end(connection: &mut UserConnection, r: &mut &[u8], hashes: &Vec<ComponentHash>, to: &Target) -> (res: Result<
    (Option<i32>, i32, bool),
    TranslateError,
>)
    ensures
        ({
            let wanted = take_end(old(connection).backups@, old(r)@, hashes@, to);
            kept(*old(connection), *final(connection), wanted.0) && match wanted.1 {
                Ok((end, rest)) => res == Ok::<(Option<i32>, i32, bool), TranslateError>(end) && final(r)@ == rest,
                Err(error) => res is Err && res->Err_0 == error,
            }
        }),
{
    let encoded: i32 = wire::or_malformed(wire::get_var_int(r))?;
    if encoded < 0 {
        return Err(TranslateError::GroupNumber);
    }
    let group: Option<i32> = if encoded == 0 {
        None
    } else {
        Some(encoded - 1)
    };
    let category: i32 = wire::or_malformed(wire::get_var_int(r))?;
    if category < 0 {
        return Err(TranslateError::CategoryNumber);
    }
    skip_requirements(connection, r, hashes, to)?;
    let flags: u8 = wire::or_malformed(wire::get_u8(r))?;
    Ok((group, category, flags / 2 % 2 == 1))
}

/// Reads a recipe; `None` where its kind is left out.
pub fn read_recipe(connection: &mut UserConnection, r: &mut &[u8], hashes: &Vec<ComponentHash>, to: &Target) -> (res:
    Result<Option<Recipe>, TranslateError>)
    ensures
        ({
            let wanted = take_recipe(old(connection).backups@, old(r)@, hashes@, to);
            kept(*old(connection), *final(connection), wanted.0) && match wanted.1 {
                Ok((recipe, rest)) => res is Ok && final(r)@ == rest && match res->Ok_0 {
                    Some(found) => recipe == Some(found@),
                    None => recipe is None,
                },
                Err(error) => res is Err && res->Err_0 == error,
            }
        }),
{
    let id: i32 = wire::or_malformed(wire::get_var_int(r))?;
    if id < 0 {
        return Err(TranslateError::Identifier);
    }
    let kind: i32 = wire::or_malformed(wire::get_var_int(r))?;
    let data: Option<RecipeData> = read_data(kind, connection, r, hashes, to)?;
    let (group, category, highlight): (Option<i32>, i32, bool) = read_end(connection, r, hashes, to)?;
    match data {
        Some(data) => Ok(Some(Recipe { id, group, category, highlight, data })),
        None => Ok(None),
    }
}

// --- writing recipes -----------------------------------------------------------------------------------

/// Two pieces, one behind the other, where both can be written; else why the first of
/// them that cannot is refused.
pub open spec fn joined(a: Result<Seq<u8>, TranslateError>, b: Result<Seq<u8>, TranslateError>) -> Result<
    Seq<u8>,
    TranslateError,
> {
    match (a, b) {
        (Ok(a), Ok(b)) => Ok(a + b),
        (Ok(a), Err(error)) => Err(error),
        (Err(error), _) => Err(error),
    }
}

pub open spec fn enc_count(n: nat) -> Result<Seq<u8>, TranslateError> {
    if n <= i32::MAX {
        Ok(wire::enc_var_int(n as i32))
    } else {
        Err(TranslateError::ListSize)
    }
}

/// A stack in the client's form.
pub open spec fn enc_stack(stack: Stack, version: Version) -> Result<Seq<u8>, TranslateError> {
    match types::enc_item(stack, version, false) {
        Some(bytes) => Ok(bytes),
        None => Err(TranslateError::Unwritable),
    }
}

/// The name that a recipe's id gets.
pub open spec fn identifier(id: i32) -> Seq<u8> {
    if id < 0 {
        seq![45u8] + text::wide((-id) as nat, 5)
    } else {
        text::wide(id as nat, 6)
    }
}

/// The id that a recipe's name stands for.
pub open spec fn id_of_identifier(name: Seq<u8>) -> Option<i32> {
    match text::parsed(text::bare(name)) {
        Some(n) => if 0 <= n <= i32::MAX {
            Some(n as i32)
        } else {
            None
        },
        None => None,
    }
}

pub open spec fn nonempty_from(items: Seq<Stack>, i: int) -> nat
    decreases items.len() - i,
{
    if i < 0 || i >= items.len() {
        0
    } else {
        nonempty_from(items, i + 1) + (if items[i] is Empty {
            0nat
        } else {
            1nat
        })
    }
}

pub open spec fn enc_stacks_from(items: Seq<Stack>, version: Version, i: int) -> Result<Seq<u8>, TranslateError>
    decreases items.len() - i,
{
    if i < 0 || i >= items.len() {
        Ok(seq![])
    } else if items[i] is Empty {
        enc_stacks_from(items, version, i + 1)
    } else {
        joined(enc_stack(items[i], version), enc_stacks_from(items, version, i + 1))
    }
}

/// The alternatives for one ingredient.
pub open spec fn enc_alternatives(items: Seq<Stack>, version: Version) -> Result<Seq<u8>, TranslateError> {
    joined(enc_count(nonempty_from(items, 0)), enc_stacks_from(items, version, 0))
}

pub open spec fn enc_lists_from(lists: Seq<Seq<Stack>>, version: Version, i: int) -> Result<Seq<u8>, TranslateError>
    decreases lists.len() - i,
{
    if i < 0 || i >= lists.len() {
        Ok(seq![])
    } else {
        joined(enc_alternatives(lists[i], version), enc_lists_from(lists, version, i + 1))
    }
}

/// The ingredients of a recipe.
pub open spec fn enc_ingredients(lists: Seq<Seq<Stack>>, version: Version) -> Result<Seq<u8>, TranslateError> {
    joined(enc_count(lists.len()), enc_lists_from(lists, version, 0))
}

/// The result of a recipe; the placeholder where there is none.
pub open spec fn enc_result(stack: Stack, to: &Target) -> Result<Seq<u8>, TranslateError> {
    enc_stack(
        if stack is Empty {
            placeholder(to)
        } else {
            stack
        },
        to.version,
    )
}

/// The server's number of the kind of a recipe.
pub open spec fn serializer_id(recipe: RecipeView) -> i32 {
    match recipe.data {
        RecipeBody::Shaped { .. } => 0,
        RecipeBody::Shapeless { .. } => 1,
        RecipeBody::Furnace { .. } => if recipe.category == 7 || recipe.category == 8 {
            16
        } else if recipe.category == 9 {
            17
        } else if recipe.category == 12 {
            18
        } else {
            15
        },
        RecipeBody::Stonecutter { .. } => 19,
    }
}

pub open spec fn serializer_name(recipe: RecipeView) -> Seq<u8> {
    match recipe.data {
        RecipeBody::Shaped { .. } => wire::key("minecraft:crafting_shaped"),
        RecipeBody::Shapeless { .. } => wire::key("minecraft:crafting_shapeless"),
        RecipeBody::Furnace { .. } => if recipe.category == 7 || recipe.category == 8 {
            wire::key("minecraft:blasting")
        } else if recipe.category == 9 {
            wire::key("minecraft:smoking")
        } else if recipe.category == 12 {
            wire::key("minecraft:campfire_cooking")
        } else {
            wire::key("minecraft:smelting")
        },
        RecipeBody::Stonecutter { .. } => wire::key("minecraft:stonecutting"),
    }
}

/// The category of an old recipe book: food, blocks, or anything else.
pub open spec fn old_category(category: i32) -> i32 {
    if category == 4 || category == 9 || category == 12 {
        0
    } else if category == 0 || category == 5 || category == 7 || category == 10 {
        1
    } else {
        2
    }
}

/// The head of a definition: its kind and its name.
pub open spec fn enc_head(recipe: RecipeView, to: &Target) -> Result<Seq<u8>, TranslateError> {
    let name = wire::enc_str(identifier(recipe.id));
    if to.version >= version::V_1_20_5 {
        match mapping::mapped(to.ids.recipe_serializers@, serializer_id(recipe)) {
            Some(serializer) => Ok(name + wire::enc_var_int(serializer)),
            None => Err(TranslateError::RecipeKind),
        }
    } else {
        Ok(wire::enc_str(serializer_name(recipe)) + name)
    }
}

/// The group of a recipe and, where the client knows them, its category.
pub open spec fn enc_group(recipe: RecipeView, categorised: bool, to: &Target) -> Seq<u8> {
    wire::enc_str(
        match recipe.group {
            Some(group) => text::decimal(group as int),
            None => seq![],
        },
    ) + (if categorised && to.version >= version::V_1_19_3 {
        wire::enc_var_int(old_category(recipe.category))
    } else {
        seq![]
    })
}

pub open spec fn enc_body(recipe: RecipeView, to: &Target) -> Result<Seq<u8>, TranslateError> {
    match recipe.data {
        RecipeBody::Shapeless { ingredients, result } => joined(
            joined(Ok(enc_group(recipe, true, to)), enc_ingredients(ingredients, to.version)),
            enc_result(result, to),
        ),
        RecipeBody::Shaped { width, height, ingredients, result } => {
            let sizes = wire::enc_var_int(width) + wire::enc_var_int(height);
            let head = if to.version >= version::V_1_20_3 {
                enc_group(recipe, true, to) + sizes
            } else {
                sizes + enc_group(recipe, true, to)
            };
            joined(
                joined(
                    joined(Ok(head), enc_ingredients(ingredients, to.version)),
                    enc_result(result, to),
                ),
                Ok(
                    if to.version >= version::V_1_19_4 {
                        wire::enc_bool(false)
                    } else {
                        seq![]
                    },
                ),
            )
        },
        RecipeBody::Furnace { ingredient, result, duration, experience } => joined(
            joined(
                joined(Ok(enc_group(recipe, true, to)), enc_alternatives(ingredient, to.version)),
                enc_result(result, to),
            ),
            Ok(wire::enc_u32(experience) + wire::enc_var_int(duration)),
        ),
        RecipeBody::Stonecutter { ingredient, result } => joined(
            joined(Ok(enc_group(recipe, false, to)), enc_ingredients(seq![ingredient], to.version)),
            enc_result(result, to),
        ),
    }
}

/// The definition of a recipe.
pub open spec fn enc_definition(recipe: RecipeView, to: &Target) -> Result<Seq<u8>, TranslateError> {
    joined(enc_head(recipe, to), enc_body(recipe, to))
}

/// Whether a writing function wrote what was wanted, or gave the error.
pub open spec fn wrote(
    res: Result<(), TranslateError>,
    before: Seq<u8>,
    after: Seq<u8>,
    wanted: Result<Seq<u8>, TranslateError>,
) -> bool {
    match wanted {
        Ok(bytes) => res is Ok && after == before + bytes,
        Err(error) => res is Err && res->Err_0 == error,
    }
}

proof fn lemma_joined(before: Seq<u8>, a: Seq<u8>, b: Result<Seq<u8>, TranslateError>)
    ensures
        b matches Ok(bytes) ==> before + a + bytes == before + (a + bytes),
{
    if let Ok(bytes) = b {
        assert(before + a + bytes =~= before + (a + bytes));
    }
}

fn write_count(out: &mut Vec<u8>, n: usize) -> (res: Result<(), TranslateError>)
    ensures
        wrote(res, old(out)@, final(out)@, enc_count(n as nat)),
{
    if n as u64 > 0x7fff_ffff {
        return Err(TranslateError::ListSize);
    }
    wire::write_var_int(out, n as i32);
    Ok(())
}

fn recipe_identifier(id: i32) -> (res: Vec<u8>)
    ensures
        res@ == identifier(id),
{
    let mut out: Vec<u8> = Vec::new();
    if id < 0 {
        out.push(45);
        text::write_wide(&mut out, (-(id as i64)) as u32, 5);
    } else {
        text::write_wide(&mut out, id as u32, 6);
    }
    assert(out@ =~= identifier(id));
    out
}

/// The id behind the name of a recipe, as a client sends it.
pub fn parse_synthetic_recipe_id(name: &[u8]) -> (res: Option<i32>)
    ensures
        res == id_of_identifier(name@),
{
    text::parse_id(text::bare_name(name))
}

/// The name that a recipe gets leads back to its id.
pub proof fn recipe_names_lead_back(id: i32)
    requires
        id >= 0,
    ensures
        id_of_identifier(identifier(id)) == Some(id),
{
    text::wide_numbers_are_read_back(id as nat, 6);
    text::lemma_wide_is_bare(id as nat, 6);
}

#[verifier::loop_isolation(false)]
fn count_nonempty(items: &Vec<Item>) -> (res: usize)
    ensures
        res == nonempty_from(stacks(items@), 0),
{
    let ghost views = stacks(items@);
    let mut count: usize = 0;
    let mut i: usize = items.len();
    while i > 0
        invariant
            i <= items.len(),
            count == nonempty_from(views, i as int),
            count <= items.len() - i,
        decreases i,
    {
        i = i - 1;
        assert(views[i as int] == items@[i as int]@);
        if !items[i].is_empty() {
            count = count + 1;
        }
    }
    count
}

#[verifier::loop_isolation(false)]
fn write_stacks(out: &mut Vec<u8>, items: &Vec<Item>, version: Version) -> (res: Result<(), TranslateError>)
    ensures
        wrote(res, old(out)@, final(out)@, enc_stacks_from(stacks(items@), version, 0)),
{
    let ghost views = stacks(items@);
    let ghost head = out@;
    let ghost wanted = enc_stacks_from(views, version, 0);
    let mut i: usize = 0;
    while i < items.len()
        invariant
            i <= items.len(),
            match enc_stacks_from(views, version, i as int) {
                Ok(more) => wanted is Ok && head + wanted->Ok_0 == out@ + more,
                Err(error) => wanted is Err && wanted->Err_0 == error,
            },
        decreases items.len() - i,
    {
        assert(views[i as int] == items@[i as int]@);
        if !items[i].is_empty() {
            let ghost before = out@;
            match types::write_item(out, &items[i], version, false) {
                Ok(()) => {
                    proof {
                        let bytes = types::enc_item(views[i as int], version, false).unwrap();
                        if let Ok(more) = enc_stacks_from(views, version, i + 1) {
                            assert(before + (bytes + more) =~= out@ + more);
                        }
                    }
                },
                Err(_) => {
                    return Err(TranslateError::Unwritable);
                },
            }
        }
        i = i + 1;
    }
    assert(out@ + Seq::<u8>::empty() =~= out@);
    Ok(())
}

fn write_alternatives(out: &mut Vec<u8>, items: &Vec<Item>, version: Version) -> (res: Result<(), TranslateError>)
    ensures
        wrote(res, old(out)@, final(out)@, enc_alternatives(stacks(items@), version)),
{
    let ghost before = out@;
    let n: usize = count_nonempty(items);
    write_count(out, n)?;
    proof {
        lemma_joined(before, wire::enc_var_int(n as i32), enc_stacks_from(stacks(items@), version, 0));
    }
    write_stacks(out, items, version)
}

#[verifier::loop_isolation(false)]
fn write_lists(out: &mut Vec<u8>, lists: &Vec<Vec<Item>>, version: Version) -> (res: Result<(), TranslateError>)
    ensures
        wrote(res, old(out)@, final(out)@, enc_lists_from(stack_lists(lists@), version, 0)),
{
    let ghost views = stack_lists(lists@);
    let ghost head = out@;
    let ghost wanted = enc_lists_from(views, version, 0);
    let mut i: usize = 0;
    while i < lists.len()
        invariant
            i <= lists.len(),
            match enc_lists_from(views, version, i as int) {
                Ok(more) => wanted is Ok && head + wanted->Ok_0 == out@ + more,
                Err(error) => wanted is Err && wanted->Err_0 == error,
            },
        decreases lists.len() - i,
    {
        assert(views[i as int] == stacks(lists@[i as int]@));
        let ghost before = out@;
        write_alternatives(out, &lists[i], version)?;
        proof {
            let bytes = enc_alternatives(views[i as int], version)->Ok_0;
            if let Ok(more) = enc_lists_from(views, version, i + 1) {
                assert(before + (bytes + more) =~= out@ + more);
            }
        }
        i = i + 1;
    }
    assert(out@ + Seq::<u8>::empty() =~= out@);
    Ok(())
}

fn write_ingredients(out: &mut Vec<u8>, lists: &Vec<Vec<Item>>, version: Version) -> (res: Result<(), TranslateError>)
    ensures
        wrote(res, old(out)@, final(out)@, enc_ingredients(stack_lists(lists@), version)),
{
    let ghost before = out@;
    write_count(out, lists.len())?;
    proof {
        lemma_joined(
            before,
            wire::enc_var_int(lists@.len() as i32),
            enc_lists_from(stack_lists(lists@), version, 0),
        );
    }
    write_lists(out, lists, version)
}

/// One ingredient on its own, with the count of ingredients in front.
fn write_one_ingredient(out: &mut Vec<u8>, items: &Vec<Item>, version: Version) -> (res: Result<(), TranslateError>)
    ensures
        wrote(res, old(out)@, final(out)@, enc_ingredients(seq![stacks(items@)], version)),
{
    let ghost before = out@;
    let ghost lists = seq![stacks(items@)];
    wire::write_var_int(out, 1);
    proof {
        assert(enc_lists_from(lists, version, 1) == Ok::<Seq<u8>, TranslateError>(Seq::<u8>::empty()));
        if let Ok(bytes) = enc_alternatives(lists[0], version) {
            assert(bytes + Seq::<u8>::empty() =~= bytes);
            assert(before + wire::enc_var_int(1) + bytes =~= before + (wire::enc_var_int(1) + bytes));
        }
    }
    write_alternatives(out, items, version)
}

fn write_result(out: &mut Vec<u8>, item: &Item, to: &Target) -> (res: Result<(), TranslateError>)
    ensures
        wrote(res, old(out)@, final(out)@, enc_result(item@, to)),
{
    let written: bool = if item.is_empty() {
        types::write_item(out, &placeholder_item(to), to.version, false).is_ok()
    } else {
        types::write_item(out, item, to.version, false).is_ok()
    };
    if written {
        Ok(())
    } else {
        Err(TranslateError::Unwritable)
    }
}

fn source_serializer_id(recipe: &Recipe) -> (res: i32)
    ensures
        res == serializer_id(recipe@),
{
    match &recipe.data {
        RecipeData::Shaped { width: _, height: _, ingredients: _, result: _ } => 0,
        RecipeData::Shapeless { ingredients: _, result: _ } => 1,
        RecipeData::Furnace { ingredient: _, result: _, duration: _, experience: _ } => match recipe.category {
            7 | 8 => 16,
            9 => 17,
            12 => 18,
            _ => 15,
        },
        RecipeData::Stonecutter { ingredient: _, result: _ } => 19,
    }
}

fn source_serializer_name(recipe: &Recipe) -> (res: &'static str)
    ensures
        wire::key(res) == serializer_name(recipe@),
{
    match &recipe.data {
        RecipeData::Shaped { width: _, height: _, ingredients: _, result: _ } => "minecraft:crafting_shaped",
        RecipeData::Shapeless { ingredients: _, result: _ } => "minecraft:crafting_shapeless",
        RecipeData::Furnace { ingredient: _, result: _, duration: _, experience: _ } => match recipe.category {
            7 | 8 => "minecraft:blasting",
            9 => "minecraft:smoking",
            12 => "minecraft:campfire_cooking",
            _ => "minecraft:smelting",
        },
        RecipeData::Stonecutter { ingredient: _, result: _ } => "minecraft:stonecutting",
    }
}

fn legacy_category(category: i32) -> (res: i32)
    ensures
        res == old_category(category),
{
    match category {
        4 | 9 | 12 => 0,
        0 | 5 | 7 | 10 => 1,
        _ => 2,
    }
}

/// A recipe under the id it gets.
pub struct Placed<'a> {
    pub id: i32,
    pub recipe: &'a Recipe,
}

impl<'a> View for Placed<'a> {
    type V = RecipeView;

    open spec fn view(&self) -> RecipeView {
        RecipeView { id: self.id, ..self.recipe@ }
    }
}

fn write_head(out: &mut Vec<u8>, placed: &Placed, to: &Target) -> (res: Result<(), TranslateError>)
    ensures
        wrote(res, old(out)@, final(out)@, enc_head(placed@, to)),
{
    let ghost before = out@;
    let name: Vec<u8> = recipe_identifier(placed.id);
    if to.version >= version::V_1_20_5 {
        match to.ids.recipe_serializers.map_id(source_serializer_id(placed.recipe)) {
            Some(serializer) => {
                wire::write_str(out, name.as_slice());
                wire::write_var_int(out, serializer);
                assert(out@ =~= before + (wire::enc_str(name@) + wire::enc_var_int(serializer)));
                Ok(())
            },
            None => Err(TranslateError::RecipeKind),
        }
    } else {
        let kind: &'static str = source_serializer_name(placed.recipe);
        wire::write_str(out, kind.as_bytes());
        wire::write_str(out, name.as_slice());
        assert(out@ =~= before + (wire::enc_str(wire::key(kind)) + wire::enc_str(name@)));
        Ok(())
    }
}

fn write_group(out: &mut Vec<u8>, placed: &Placed, categorised: bool, to: &Target)
    ensures
        final(out)@ == old(out)@ + enc_group(placed@, categorised, to),
{
    let ghost before = out@;
    let mut group: Vec<u8> = Vec::new();
    if let Some(number) = placed.recipe.group {
        text::write_decimal(&mut group, number);
    }
    proof {
        if let Some(number) = placed.recipe.group {
            assert(group@ =~= text::decimal(number as int));
        } else {
            assert(group@ =~= seq![]);
        }
    }
    wire::write_str(out, group.as_slice());
    if categorised && to.version >= version::V_1_19_3 {
        wire::write_var_int(out, legacy_category(placed.recipe.category));
    }
    assert(out@ =~= before + enc_group(placed@, categorised, to));
}

fn write_shaped_head(out: &mut Vec<u8>, placed: &Placed, width: i32, height: i32, to: &Target)
    ensures
        final(out)@ == old(out)@ + (if to.version >= version::V_1_20_3 {
            enc_group(placed@, true, to) + (wire::enc_var_int(width) + wire::enc_var_int(height))
        } else {
            wire::enc_var_int(width) + wire::enc_var_int(height) + enc_group(placed@, true, to)
        }),
{
    let ghost before = out@;
    let ghost sizes = wire::enc_var_int(width) + wire::enc_var_int(height);
    if to.version >= version::V_1_20_3 {
        write_group(out, placed, true, to);
        wire::write_var_int(out, width);
        wire::write_var_int(out, height);
        assert(out@ =~= before + (enc_group(placed@, true, to) + sizes));
    } else {
        wire::write_var_int(out, width);
        wire::write_var_int(out, height);
        write_group(out, placed, true, to);
        assert(out@ =~= before + (sizes + enc_group(placed@, true, to)));
    }
}

fn write_body(placed: &Placed, to: &Target) -> (res: Result<Vec<u8>, TranslateError>)
    ensures
        match enc_body(placed@, to) {
            Ok(bytes) => res is Ok && res->Ok_0@ == bytes,
            Err(error) => res is Err && res->Err_0 == error,
        },
{
    let mut out: Vec<u8> = Vec::new();
    match &placed.recipe.data {
        RecipeData::Shapeless { ingredients, result } => {
            write_group(&mut out, placed, true, to);
            assert(out@ =~= enc_group(placed@, true, to));
            write_ingredients(&mut out, ingredients, to.version)?;
            write_result(&mut out, result, to)?;
        },
        RecipeData::Shaped { width, height, ingredients, result } => {
            write_shaped_head(&mut out, placed, *width, *height, to);
            proof {
                let sizes = wire::enc_var_int(*width) + wire::enc_var_int(*height);
                let head = if to.version >= version::V_1_20_3 {
                    enc_group(placed@, true, to) + sizes
                } else {
                    sizes + enc_group(placed@, true, to)
                };
                assert(out@ =~= head);
            }
            write_ingredients(&mut out, ingredients, to.version)?;
            write_result(&mut out, result, to)?;
            let ghost before = out@;
            if to.version >= version::V_1_19_4 {
                wire::write_bool(&mut out, false);
            } else {
                assert(before + Seq::<u8>::empty() =~= before);
            }
        },
        RecipeData::Furnace { ingredient, result, duration, experience } => {
            write_group(&mut out, placed, true, to);
            assert(out@ =~= enc_group(placed@, true, to));
            write_alternatives(&mut out, ingredient, to.version)?;
            write_result(&mut out, result, to)?;
            let ghost before = out@;
            wire::write_u32(&mut out, *experience);
            wire::write_var_int(&mut out, *duration);
            assert(out@ =~= before + (wire::enc_u32(*experience) + wire::enc_var_int(*duration)));
        },
        RecipeData::Stonecutter { ingredient, result } => {
            write_group(&mut out, placed, false, to);
            assert(out@ =~= enc_group(placed@, false, to));
            write_one_ingredient(&mut out, ingredient, to.version)?;
            write_result(&mut out, result, to)?;
        },
    }
    Ok(out)
}

/// Writes the definition of a recipe.
pub fn write_recipe_definition(out: &mut Vec<u8>, placed: &Placed, to: &Target) -> (res: Result<(), TranslateError>)
    ensures
        wrote(res, old(out)@, final(out)@, enc_definition(placed@, to)),
{
    let ghost before = out@;
    write_head(out, placed, to)?;
    let body: Vec<u8> = write_body(placed, to)?;
    wire::write_bytes(out, body.as_slice());
    proof {
        lemma_joined(before, enc_head(placed@, to)->Ok_0, Ok(body@));
    }
    Ok(())
}

// --- the book ----------------------------------------------------------------------------------------------

/// The place behind the last of the first `i` recipes whose id is not above `id`.
pub open spec fn place_back(recipes: Seq<RecipeView>, id: i32, i: int) -> int
    decreases i,
{
    if i <= 0 || i > recipes.len() || recipes[i - 1].id <= id {
        i
    } else {
        place_back(recipes, id, i - 1)
    }
}

/// Recipes in the order of their ids with one more.
pub open spec fn with_recipe(recipes: Seq<RecipeView>, recipe: RecipeView) -> Seq<RecipeView> {
    recipes.insert(place_back(recipes, recipe.id, recipes.len() as int), recipe)
}

pub open spec fn sorted_from(out: Seq<RecipeView>, recipes: Seq<RecipeView>, i: int) -> Seq<RecipeView>
    decreases recipes.len() - i,
{
    if i < 0 || i >= recipes.len() {
        out
    } else {
        sorted_from(with_recipe(out, recipes[i]), recipes, i + 1)
    }
}

pub open spec fn highest_from(recipes: Seq<RecipeView>, best: i32, i: int) -> i32
    decreases recipes.len() - i,
{
    if i < 0 || i >= recipes.len() {
        best
    } else {
        highest_from(
            recipes,
            if recipes[i].id > best {
                recipes[i].id
            } else {
                best
            },
            i + 1,
        )
    }
}

/// The highest id of the recipes; one below the first where there are none.
pub open spec fn highest_id(recipes: Seq<RecipeView>) -> i32 {
    if recipes.len() == 0 {
        -1i32
    } else {
        highest_from(recipes, recipes[0].id, 1)
    }
}

/// The recipes with those of the stonecutter, under the ids behind `highest`.
pub open spec fn numbered_from(
    out: Seq<RecipeView>,
    stonecutters: Seq<RecipeView>,
    highest: i32,
    i: int,
) -> Result<Seq<RecipeView>, TranslateError>
    decreases stonecutters.len() - i,
{
    if i < 0 || i >= stonecutters.len() {
        Ok(out)
    } else if highest == i32::MAX {
        Err(TranslateError::Numbering)
    } else {
        let id = (highest + 1) as i32;
        numbered_from(
            with_recipe(out, (RecipeView { id, ..stonecutters[i] })),
            stonecutters,
            id,
            i + 1,
        )
    }
}

/// All recipes of a book, in the order of their ids.
pub open spec fn all_recipes(book: Book) -> Result<Seq<RecipeView>, TranslateError> {
    numbered_from(
        sorted_from(seq![], book.recipes, 0),
        book.stonecutter_recipes,
        highest_id(book.recipes),
        0,
    )
}

pub open spec fn enc_definitions_from(recipes: Seq<RecipeView>, to: &Target, i: int) -> Result<Seq<u8>, TranslateError>
    decreases recipes.len() - i,
{
    if i < 0 || i >= recipes.len() {
        Ok(seq![])
    } else {
        joined(enc_definition(recipes[i], to), enc_definitions_from(recipes, to, i + 1))
    }
}

/// The definitions of all recipes of a book.
pub open spec fn enc_definitions(book: Book, to: &Target) -> Result<Seq<u8>, TranslateError> {
    match all_recipes(book) {
        Ok(recipes) => joined(enc_count(recipes.len()), enc_definitions_from(recipes, to, 0)),
        Err(error) => Err(error),
    }
}

pub open spec fn enc_settings(settings: Seq<bool>) -> Seq<u8>
    decreases settings.len(),
{
    if settings.len() == 0 {
        seq![]
    } else {
        enc_settings(settings.drop_last()) + wire::enc_bool(settings.last())
    }
}

/// Whether a recipe is in a list of the book: in the first all are, in the second
/// those that are highlighted.
pub open spec fn is_listed(recipe: RecipeView, all: bool) -> bool {
    all || recipe.highlight
}

pub open spec fn listed_from(recipes: Seq<RecipeView>, all: bool, i: int) -> nat
    decreases recipes.len() - i,
{
    if i < 0 || i >= recipes.len() {
        0
    } else {
        listed_from(recipes, all, i + 1) + (if is_listed(recipes[i], all) {
            1nat
        } else {
            0nat
        })
    }
}

pub open spec fn enc_names_from(recipes: Seq<RecipeView>, all: bool, i: int) -> Seq<u8>
    decreases recipes.len() - i,
{
    if i < 0 || i >= recipes.len() {
        seq![]
    } else {
        (if is_listed(recipes[i], all) {
            wire::enc_str(identifier(recipes[i].id))
        } else {
            seq![]
        }) + enc_names_from(recipes, all, i + 1)
    }
}

pub open spec fn enc_listed(recipes: Seq<RecipeView>, all: bool) -> Result<Seq<u8>, TranslateError> {
    joined(enc_count(listed_from(recipes, all, 0)), Ok(enc_names_from(recipes, all, 0)))
}

/// The packet that fills an old recipe book.
pub open spec fn enc_init(book: Book) -> Result<Seq<u8>, TranslateError> {
    match all_recipes(book) {
        Ok(recipes) => joined(
            joined(Ok(wire::enc_var_int(0) + enc_settings(book.settings)), enc_listed(recipes, true)),
            enc_listed(recipes, false),
        ),
        Err(error) => Err(error),
    }
}

pub open spec fn enc_ids_from(ids: Seq<i32>, i: int) -> Seq<u8>
    decreases ids.len() - i,
{
    if i < 0 || i >= ids.len() {
        seq![]
    } else {
        wire::enc_str(identifier(ids[i])) + enc_ids_from(ids, i + 1)
    }
}

/// The packet that takes recipes out of an old recipe book.
pub open spec fn enc_remove(book: Book, ids: Seq<i32>) -> Result<Seq<u8>, TranslateError> {
    joined(
        joined(Ok(wire::enc_var_int(2) + enc_settings(book.settings)), enc_count(ids.len())),
        Ok(enc_ids_from(ids, 0)),
    )
}

pub open spec fn placed_views(placed: Seq<Placed>) -> Seq<RecipeView> {
    Seq::new(placed.len(), |i: int| placed[i]@)
}

#[verifier::loop_isolation(false)]
fn place<'a>(out: &mut Vec<Placed<'a>>, one: Placed<'a>)
    ensures
        placed_views(final(out)@) == with_recipe(placed_views(old(out)@), one@),
{
    let ghost views = placed_views(out@);
    let mut i: usize = out.len();
    while i > 0 && out[i - 1].id > one.id
        invariant
            i <= out.len(),
            out@ == old(out)@,
            place_back(views, one.id, views.len() as int) == place_back(views, one.id, i as int),
        decreases i,
    {
        assert(views[i - 1] == out@[i - 1]@);
        i = i - 1;
    }
    proof {
        if i > 0 {
            assert(views[i - 1] == out@[i - 1]@);
        }
    }
    let ghost view = one@;
    out.insert(i, one);
    assert(placed_views(out@) =~= views.insert(i as int, view));
}

#[verifier::loop_isolation(false)]
fn highest(recipes: &Vec<Recipe>) -> (res: i32)
    ensures
        res == highest_id(recipe_views(recipes@)),
{
    let ghost views = recipe_views(recipes@);
    if recipes.len() == 0 {
        return -1;
    }
    assert(views[0] == recipes@[0]@);
    let mut best: i32 = recipes[0].id;
    let mut i: usize = 1;
    while i < recipes.len()
        invariant
            1 <= i <= recipes.len(),
            highest_id(views) == highest_from(views, best, i as int),
        decreases recipes.len() - i,
    {
        assert(views[i as int] == recipes@[i as int]@);
        if recipes[i].id > best {
            best = recipes[i].id;
        }
        i = i + 1;
    }
    best
}

#[verifier::loop_isolation(false)]
fn sort_recipes<'a>(storage: &'a RecipeBookStorage) -> (res: Result<Vec<Placed<'a>>, TranslateError>)
    ensures
        match all_recipes(storage@) {
            Ok(recipes) => res is Ok && placed_views(res->Ok_0@) == recipes,
            Err(error) => res is Err && res->Err_0 == error,
        },
{
    let ghost own = recipe_views(storage.recipes@);
    let ghost stone = recipe_views(storage.stonecutter_recipes@);
    let mut out: Vec<Placed<'a>> = Vec::new();
    assert(placed_views(out@) =~= seq![]);
    let mut i: usize = 0;
    while i < storage.recipes.len()
        invariant
            i <= storage.recipes.len(),
            sorted_from(seq![], own, 0) == sorted_from(placed_views(out@), own, i as int),
        decreases storage.recipes.len() - i,
    {
        assert(own[i as int] == storage.recipes@[i as int]@);
        let recipe: &'a Recipe = &storage.recipes[i];
        place(&mut out, Placed { id: recipe.id, recipe });
        i = i + 1;
    }
    let mut id: i32 = highest(&storage.recipes);
    let mut j: usize = 0;
    while j < storage.stonecutter_recipes.len()
        invariant
            j <= storage.stonecutter_recipes.len(),
            all_recipes(storage@) == numbered_from(placed_views(out@), stone, id, j as int),
        decreases storage.stonecutter_recipes.len() - j,
    {
        assert(stone[j as int] == storage.stonecutter_recipes@[j as int]@);
        if id == i32::MAX {
            return Err(TranslateError::Numbering);
        }
        id = id + 1;
        place(&mut out, Placed { id, recipe: &storage.stonecutter_recipes[j] });
        j = j + 1;
    }
    Ok(out)
}

/// Writes the definitions of all recipes of a book.
#[verifier::loop_isolation(false)]
pub fn encode_update_recipes(storage: &RecipeBookStorage, to: &Target) -> (res: Result<Vec<u8>, TranslateError>)
    ensures
        match enc_definitions(storage@, to) {
            Ok(bytes) => res is Ok && res->Ok_0@ == bytes,
            Err(error) => res is Err && res->Err_0 == error,
        },
{
    let placed: Vec<Placed> = sort_recipes(storage)?;
    let ghost views = placed_views(placed@);
    let mut out: Vec<u8> = Vec::new();
    write_count(&mut out, placed.len())?;
    let ghost head = out@;
    assert(head =~= wire::enc_var_int(placed@.len() as i32));
    let ghost wanted = enc_definitions_from(views, to, 0);
    let mut i: usize = 0;
    while i < placed.len()
        invariant
            i <= placed.len(),
            match enc_definitions_from(views, to, i as int) {
                Ok(more) => wanted is Ok && head + wanted->Ok_0 == out@ + more,
                Err(error) => wanted is Err && wanted->Err_0 == error,
            },
        decreases placed.len() - i,
    {
        assert(views[i as int] == placed@[i as int]@);
        let ghost before = out@;
        write_recipe_definition(&mut out, &placed[i], to)?;
        proof {
            let bytes = enc_definition(views[i as int], to)->Ok_0;
            if let Ok(more) = enc_definitions_from(views, to, i + 1) {
                assert(before + (bytes + more) =~= out@ + more);
            }
        }
        i = i + 1;
    }
    assert(out@ + Seq::<u8>::empty() =~= out@);
    Ok(out)
}

#[verifier::loop_isolation(false)]
fn write_settings(out: &mut Vec<u8>, settings: &[bool; 8])
    ensures
        final(out)@ == old(out)@ + enc_settings(settings@),
{
    let mut i: usize = 0;
    assert(settings@.take(0) =~= seq![]);
    assert(out@ =~= old(out)@ + enc_settings(settings@.take(0)));
    while i < RECIPE_BOOK_SETTINGS
        invariant
            i <= RECIPE_BOOK_SETTINGS,
            out@ == old(out)@ + enc_settings(settings@.take(i as int)),
        decreases RECIPE_BOOK_SETTINGS - i,
    {
        wire::write_bool(out, settings[i]);
        let ghost next = settings@.take(i + 1);
        assert(next.drop_last() =~= settings@.take(i as int));
        assert(out@ =~= old(out)@ + enc_settings(next));
        i = i + 1;
    }
    assert(settings@.take(settings@.len() as int) =~= settings@);
}

#[verifier::loop_isolation(false)]
fn write_listed(out: &mut Vec<u8>, placed: &Vec<Placed>, all: bool) -> (res: Result<(), TranslateError>)
    ensures
        wrote(res, old(out)@, final(out)@, enc_listed(placed_views(placed@), all)),
{
    let ghost views = placed_views(placed@);
    let ghost start = out@;
    let mut count: usize = 0;
    let mut k: usize = placed.len();
    while k > 0
        invariant
            k <= placed.len(),
            count == listed_from(views, all, k as int),
            count <= placed.len() - k,
        decreases k,
    {
        k = k - 1;
        assert(views[k as int] == placed@[k as int]@);
        if all || placed[k].recipe.highlight {
            count = count + 1;
        }
    }
    write_count(out, count)?;
    let ghost head = out@;
    let mut i: usize = 0;
    while i < placed.len()
        invariant
            i <= placed.len(),
            head + enc_names_from(views, all, 0) == out@ + enc_names_from(views, all, i as int),
        decreases placed.len() - i,
    {
        assert(views[i as int] == placed@[i as int]@);
        let ghost before = out@;
        let ghost more = enc_names_from(views, all, i + 1);
        if all || placed[i].recipe.highlight {
            let name: Vec<u8> = recipe_identifier(placed[i].id);
            wire::write_str(out, name.as_slice());
            assert(before + (wire::enc_str(name@) + more) =~= out@ + more);
        } else {
            assert(before + (Seq::<u8>::empty() + more) =~= out@ + more);
        }
        i = i + 1;
    }
    assert(out@ + Seq::<u8>::empty() =~= out@);
    proof {
        lemma_joined(start, wire::enc_var_int(count as i32), Ok(enc_names_from(views, all, 0)));
    }
    Ok(())
}

/// Writes the packet that fills an old recipe book.
pub fn encode_recipe_book_init(storage: &RecipeBookStorage) -> (res: Result<Vec<u8>, TranslateError>)
    ensures
        match enc_init(storage@) {
            Ok(bytes) => res is Ok && res->Ok_0@ == bytes,
            Err(error) => res is Err && res->Err_0 == error,
        },
{
    let placed: Vec<Placed> = sort_recipes(storage)?;
    let mut out: Vec<u8> = wire::var_int_bytes(0);
    write_settings(&mut out, &storage.settings);
    write_listed(&mut out, &placed, true)?;
    write_listed(&mut out, &placed, false)?;
    Ok(out)
}

/// Writes the packet that takes recipes out of an old recipe book.
#[verifier::loop_isolation(false)]
pub fn encode_recipe_book_remove(storage: &RecipeBookStorage, ids: &Vec<i32>) -> (res: Result<Vec<u8>, TranslateError>)
    ensures
        match enc_remove(storage@, ids@) {
            Ok(bytes) => res is Ok && res->Ok_0@ == bytes,
            Err(error) => res is Err && res->Err_0 == error,
        },
{
    let mut out: Vec<u8> = wire::var_int_bytes(2);
    write_settings(&mut out, &storage.settings);
    write_count(&mut out, ids.len())?;
    let ghost head = out@;
    let mut i: usize = 0;
    while i < ids.len()
        invariant
            i <= ids.len(),
            head + enc_ids_from(ids@, 0) == out@ + enc_ids_from(ids@, i as int),
        decreases ids.len() - i,
    {
        let ghost before = out@;
        let name: Vec<u8> = recipe_identifier(ids[i]);
        wire::write_str(&mut out, name.as_slice());
        assert(before + (wire::enc_str(name@) + enc_ids_from(ids@, i + 1)) =~= out@ + enc_ids_from(ids@, i + 1));
        i = i + 1;
    }
    assert(out@ + Seq::<u8>::empty() =~= out@);
    Ok(out)
}

// --- laws ---------------------------------------------------------------------------------------------------

pub open spec fn recipes_sorted(recipes: Seq<RecipeView>) -> bool {
    forall|i: int, j: int| 0 <= i <= j < recipes.len() ==> recipes[i].id <= recipes[j].id
}

proof fn lemma_place_back(recipes: Seq<RecipeView>, id: i32, i: int)
    requires
        0 <= i <= recipes.len(),
    ensures
        0 <= place_back(recipes, id, i) <= i,
        place_back(recipes, id, i) > 0 ==> recipes[place_back(recipes, id, i) - 1].id <= id,
        forall|k: int| place_back(recipes, id, i) <= k < i ==> (#[trigger] recipes[k]).id > id,
    decreases i,
{
    if i > 0 && recipes[i - 1].id > id {
        lemma_place_back(recipes, id, i - 1);
    }
}

proof fn lemma_with_recipe(recipes: Seq<RecipeView>, recipe: RecipeView)
    requires
        recipes_sorted(recipes),
    ensures
        recipes_sorted(with_recipe(recipes, recipe)),
        with_recipe(recipes, recipe).len() == recipes.len() + 1,
{
    lemma_place_back(recipes, recipe.id, recipes.len() as int);
}

proof fn lemma_sorted(out: Seq<RecipeView>, recipes: Seq<RecipeView>, i: int)
    requires
        recipes_sorted(out),
        0 <= i <= recipes.len(),
    ensures
        recipes_sorted(sorted_from(out, recipes, i)),
        sorted_from(out, recipes, i).len() == out.len() + recipes.len() - i,
    decreases recipes.len() - i,
{
    if i < recipes.len() {
        lemma_with_recipe(out, recipes[i]);
        lemma_sorted(with_recipe(out, recipes[i]), recipes, i + 1);
    }
}

proof fn lemma_numbered(out: Seq<RecipeView>, stonecutters: Seq<RecipeView>, highest: i32, i: int)
    requires
        recipes_sorted(out),
        0 <= i <= stonecutters.len(),
    ensures
        numbered_from(out, stonecutters, highest, i) matches Ok(all) ==> recipes_sorted(all) && all.len() == out.len()
            + stonecutters.len() - i,
    decreases stonecutters.len() - i,
{
    if i < stonecutters.len() && highest != i32::MAX {
        let id = (highest + 1) as i32;
        let recipe = RecipeView { id, ..stonecutters[i] };
        lemma_with_recipe(out, recipe);
        lemma_numbered(with_recipe(out, recipe), stonecutters, id, i + 1);
    }
}

/// A client is told of every recipe of its book and of the stonecutter, in the order
/// of their ids.
pub proof fn all_recipes_are_told(book: Book)
    ensures
        all_recipes(book) matches Ok(all) ==> recipes_sorted(all) && all.len() == book.recipes.len()
            + book.stonecutter_recipes.len(),
{
    lemma_sorted(seq![], book.recipes, 0);
    lemma_numbered(
        sorted_from(seq![], book.recipes, 0),
        book.stonecutter_recipes,
        highest_id(book.recipes),
        0,
    );
}

} // verus!
