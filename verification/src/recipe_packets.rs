//! The packets of the recipe book, in both directions.
use vstd::prelude::*;
use vstd::slice::slice_to_vec;
use crate::connection::UserConnection;
use crate::item_backup;
use crate::item_backup::ComponentHash;
use crate::item_backup::Row;
use crate::mapping::IdMapping;
use crate::order;
use crate::recipe_book;
use crate::recipe_book::Part;
use crate::recipe_book::Written;
use crate::recipe_legacy;
use crate::recipe_legacy::Book;
use crate::recipe_legacy::Recipe;
use crate::recipe_legacy::RecipeBody;
use crate::recipe_legacy::RecipeBookStorage;
use crate::recipe_legacy::RecipeData;
use crate::recipe_legacy::RecipeView;
use crate::recipe_legacy::Taken;
use crate::shape;
use crate::target::Target;
use crate::text;
use crate::types::Item;
use crate::version;
use crate::version::Version;
use crate::wire;
use crate::wire::TranslateError;

verus! {

/// What becomes of a packet.
pub enum Outcome {
    /// It is sent with this payload.
    Passed(Vec<u8>),
    /// An unlock packet goes in its place.
    Unlock(Vec<u8>),
    /// The definitions of the recipes go in its place, and then an unlock packet.
    UpdateAndUnlock(Vec<u8>, Vec<u8>),
    Dropped,
}

#[verifier::ext_equal]
pub enum Fate {
    Passed(Seq<u8>),
    Unlock(Seq<u8>),
    UpdateAndUnlock(Seq<u8>, Seq<u8>),
    Dropped,
}

impl View for Outcome {
    type V = Fate;

    open spec fn view(&self) -> Fate {
        match *self {
            Outcome::Passed(payload) => Fate::Passed(payload@),
            Outcome::Unlock(payload) => Fate::Unlock(payload@),
            Outcome::UpdateAndUnlock(update, unlock) => Fate::UpdateAndUnlock(update@, unlock@),
            Outcome::Dropped => Fate::Dropped,
        }
    }
}

/// What a packet leaves: the connection's backups, its recipe book, and what
/// becomes of the packet with what stands behind what was read of it.
#[verifier::ext_equal]
pub struct After {
    pub rows: Seq<Row>,
    pub book: Book,
    pub fate: Result<(Fate, Seq<u8>), TranslateError>,
}

pub open spec fn same_but_recipes(a: UserConnection, b: UserConnection) -> bool {
    a == (UserConnection { backups: a.backups, recipes: a.recipes, ..b })
}

/// Whether a packet function did what was wanted.
pub open spec fn handled(
    res: Result<Outcome, TranslateError>,
    before: UserConnection,
    after: UserConnection,
    rest: Seq<u8>,
    wanted: After,
) -> bool {
    &&& after.backups@ == wanted.rows
    &&& after.recipes@ == wanted.book
    &&& same_but_recipes(after, before)
    &&& match wanted.fate {
        Ok((fate, end)) => res is Ok && res->Ok_0@ == fate && rest == end,
        Err(error) => res is Err && res->Err_0 == error,
    }
}

/// A translated payload as what becomes of a packet.
pub open spec fn passed_on(written: Written, book: Book) -> After {
    After {
        rows: written.0,
        book,
        fate: match written.1 {
            (bytes, Ok(rest)) => Ok((Fate::Passed(bytes), rest)),
            (bytes, Err(error)) => Err(error),
        },
    }
}

/// Whether a translating function gave what was wanted. What it wrote counts only where
/// it succeeded: of a packet that is refused nothing is sent.
pub open spec fn ran(
    res: Result<(), TranslateError>,
    before: (UserConnection, Seq<u8>),
    after: (UserConnection, Seq<u8>, Seq<u8>),
    wanted: Written,
) -> bool {
    &&& recipe_legacy::kept(before.0, after.0, wanted.0)
    &&& recipe_book::ended(res, after.2, wanted.1.1)
    &&& res is Ok ==> after.1 == before.1 + wanted.1.0
}

/// As `ran`, of a function that gives its bytes.
pub open spec fn gave_payload(
    res: Result<Vec<u8>, TranslateError>,
    before: UserConnection,
    after: (UserConnection, Seq<u8>),
    wanted: Written,
) -> bool {
    &&& recipe_legacy::kept(before, after.0, wanted.0)
    &&& match wanted.1 {
        (bytes, Ok(rest)) => res is Ok && res->Ok_0@ == bytes && after.1 == rest,
        (bytes, Err(error)) => res is Err && res->Err_0 == error,
    }
}

/// A packet that is refused with nothing changed.
pub open spec fn refused(rows: Seq<Row>, book: Book, error: TranslateError) -> After {
    After { rows, book, fate: Err(error) }
}

// --- the recipe book for clients with displays -----------------------------------------------------------

/// The end of an entry: its group and category, what it asks for, and its flags.
pub open spec fn entry_end(s: Seq<u8>, slots: Seq<Option<u32>>) -> Part {
    match wire::take_var_int(s) {
        Some((group, s1)) => match wire::take_var_int(s1) {
            Some((category, s2)) => match recipe_book::requirements_written(s2, slots) {
                (asked, Ok(s3)) => match wire::take_u8(s3) {
                    Some((flags, rest)) => (
                        wire::enc_var_int(group) + wire::enc_var_int(category) + asked + seq![flags],
                        Ok(rest),
                    ),
                    None => recipe_book::failed(TranslateError::Malformed),
                },
                (asked, Err(error)) => recipe_book::failed(error),
            },
            None => recipe_book::failed(TranslateError::Malformed),
        },
        None => recipe_book::failed(TranslateError::Malformed),
    }
}

/// An entry of the book: the number of the display, the display, its group and
/// category, what it asks for, and its flags.
pub open spec fn entry_written(rows: Seq<Row>, s: Seq<u8>, hashes: Seq<ComponentHash>, to: &Target) -> Written {
    match wire::take_var_int(s) {
        Some((id, t)) => match recipe_book::recipe_written(rows, t, hashes, to) {
            (kept, (display, Ok(u))) => (
                kept,
                recipe_book::after(wire::enc_var_int(id) + display, entry_end(u, to.ids.items@)),
            ),
            (kept, (display, Err(error))) => (kept, recipe_book::failed(error)),
        },
        None => (rows, recipe_book::failed(TranslateError::Malformed)),
    }
}

pub open spec fn entries_written(n: nat, rows: Seq<Row>, s: Seq<u8>, hashes: Seq<ComponentHash>, to: &Target) -> Written
    decreases n,
{
    if n == 0 {
        (rows, (seq![], Ok(s)))
    } else {
        match entry_written(rows, s, hashes, to) {
            (kept, (bytes, Ok(rest))) => recipe_book::behind(
                bytes,
                entries_written((n - 1) as nat, kept, rest, hashes, to),
            ),
            step => step,
        }
    }
}

/// The payload of a recipe book: its entries, and whether they replace the book.
#[verifier::opaque]
pub open spec fn book_written(rows: Seq<Row>, s: Seq<u8>, hashes: Seq<ComponentHash>, to: &Target) -> Written {
    match wire::take_var_int(s) {
        Some((n, t)) => if n < 0 || n > recipe_book::MAX_RECIPE_ENTRIES {
            (rows, recipe_book::failed(TranslateError::Count))
        } else {
            match entries_written(n as nat, rows, t, hashes, to) {
                (kept, (entries, Ok(u))) => (
                    kept,
                    match wire::take_bool(u) {
                        Some((replace, rest)) => (
                            wire::enc_var_int(n) + entries + wire::enc_bool(replace),
                            Ok(rest),
                        ),
                        None => recipe_book::failed(TranslateError::Malformed),
                    },
                ),
                step => step,
            }
        },
        None => (rows, recipe_book::failed(TranslateError::Malformed)),
    }
}

/// A named list of items.
pub open spec fn group_written(s: Seq<u8>, slots: Seq<Option<u32>>) -> Part {
    match wire::take_str(s) {
        Some((name, t)) => match wire::take_var_int(t) {
            Some((n, u)) => if n < 0 || n > recipe_book::MAX_RECIPE_LIST {
                recipe_book::failed(TranslateError::Count)
            } else {
                recipe_book::after(
                    wire::enc_str(name) + wire::enc_var_int(n),
                    recipe_book::items_written(n as nat, u, slots),
                )
            },
            None => recipe_book::failed(TranslateError::Malformed),
        },
        None => recipe_book::failed(TranslateError::Malformed),
    }
}

pub open spec fn groups_written(n: nat, s: Seq<u8>, slots: Seq<Option<u32>>) -> Part
    decreases n,
{
    if n == 0 {
        (seq![], Ok(s))
    } else {
        match group_written(s, slots) {
            (bytes, Ok(rest)) => recipe_book::after(bytes, groups_written((n - 1) as nat, rest, slots)),
            part => part,
        }
    }
}

/// A stonecutter recipe: what it takes and what it shows.
pub open spec fn stonecutter_written(rows: Seq<Row>, s: Seq<u8>, hashes: Seq<ComponentHash>, to: &Target) -> Written {
    match recipe_book::holder_set_written(s, to.ids.items@) {
        (input, Ok(rest)) => recipe_book::behind(
            input,
            recipe_book::display_written(rows, rest, true, hashes, to),
        ),
        part => (rows, part),
    }
}

pub open spec fn stonecutters_written(
    n: nat,
    rows: Seq<Row>,
    s: Seq<u8>,
    hashes: Seq<ComponentHash>,
    to: &Target,
) -> Written
    decreases n,
{
    if n == 0 {
        (rows, (seq![], Ok(s)))
    } else {
        match stonecutter_written(rows, s, hashes, to) {
            (kept, (bytes, Ok(rest))) => recipe_book::behind(
                bytes,
                stonecutters_written((n - 1) as nat, kept, rest, hashes, to),
            ),
            step => step,
        }
    }
}

/// The payload that updates the recipes: the groups, and the stonecutter's.
#[verifier::opaque]
pub open spec fn update_written(rows: Seq<Row>, s: Seq<u8>, hashes: Seq<ComponentHash>, to: &Target) -> Written {
    match wire::take_var_int(s) {
        Some((n, t)) => if n < 0 || n > recipe_book::MAX_RECIPE_ENTRIES {
            (rows, recipe_book::failed(TranslateError::Count))
        } else {
            match groups_written(n as nat, t, to.ids.items@) {
                (groups, Ok(u)) => match wire::take_var_int(u) {
                    Some((m, v)) => if m < 0 || m > recipe_book::MAX_RECIPE_ENTRIES {
                        (rows, recipe_book::failed(TranslateError::Count))
                    } else {
                        recipe_book::behind(
                            wire::enc_var_int(n) + groups + wire::enc_var_int(m),
                            stonecutters_written(m as nat, rows, v, hashes, to),
                        )
                    },
                    None => (rows, recipe_book::failed(TranslateError::Malformed)),
                },
                part => (rows, part),
            }
        },
        None => (rows, recipe_book::failed(TranslateError::Malformed)),
    }
}

/// A recipe that a client is shown: where, and its display.
#[verifier::opaque]
pub open spec fn ghost_written(rows: Seq<Row>, s: Seq<u8>, hashes: Seq<ComponentHash>, to: &Target) -> Written {
    match wire::take_var_int(s) {
        Some((container, t)) => recipe_book::behind(
            wire::enc_var_int(container),
            recipe_book::recipe_written(rows, t, hashes, to),
        ),
        None => (rows, recipe_book::failed(TranslateError::Malformed)),
    }
}

fn write_entry_end(r: &mut &[u8], out: &mut Vec<u8>, table: &IdMapping) -> (res: Result<(), TranslateError>)
    ensures
        recipe_book::ended(res, final(r)@, entry_end(old(r)@, table@).1),
        res is Ok ==> final(out)@ == old(out)@ + entry_end(old(r)@, table@).0,
{
    let ghost before = out@;
    let ghost wanted = entry_end(r@, table@);
    let group: i32 = wire::or_malformed(wire::get_var_int(r))?;
    wire::write_var_int(out, group);
    let category: i32 = wire::or_malformed(wire::get_var_int(r))?;
    wire::write_var_int(out, category);
    recipe_book::crafting_requirements(r, out, table)?;
    let flags: u8 = wire::or_malformed(wire::get_u8(r))?;
    out.push(flags);
    assert(out@ =~= before + wanted.0);
    Ok(())
}

fn write_entry(
    connection: &mut UserConnection,
    r: &mut &[u8],
    out: &mut Vec<u8>,
    hashes: &Vec<ComponentHash>,
    to: &Target,
) -> (res: Result<(), TranslateError>)
    ensures
        ran(
            res,
            (*old(connection), old(out)@),
            (*final(connection), final(out)@, final(r)@),
            entry_written(old(connection).backups@, old(r)@, hashes@, to),
        ),
{
    let ghost before = out@;
    let id: i32 = wire::or_malformed(wire::get_var_int(r))?;
    wire::write_var_int(out, id);
    let ghost display = recipe_book::recipe_written(connection.backups@, r@, hashes@, to);
    recipe_book::recipe_display(connection, r, out, hashes, to)?;
    proof {
        let head = wire::enc_var_int(id) + display.1.0;
        recipe_book::lemma_joined(before, wire::enc_var_int(id), display.1.0);
        recipe_book::lemma_joined(before, head, entry_end(r@, to.ids.items@).0);
    }
    write_entry_end(r, out, &to.ids.items)
}

#[verifier::loop_isolation(false)]
fn write_entries(
    n: u32,
    connection: &mut UserConnection,
    r: &mut &[u8],
    out: &mut Vec<u8>,
    hashes: &Vec<ComponentHash>,
    to: &Target,
) -> (res: Result<(), TranslateError>)
    ensures
        ran(
            res,
            (*old(connection), old(out)@),
            (*final(connection), final(out)@, final(r)@),
            entries_written(n as nat, old(connection).backups@, old(r)@, hashes@, to),
        ),
{
    let ghost before = out@;
    let ghost wanted = entries_written(n as nat, connection.backups@, r@, hashes@, to);
    let ghost mut written: Seq<u8> = seq![];
    let mut left: u32 = n;
    proof {
        recipe_book::lemma_nothing(before);
        recipe_book::lemma_nothing(wanted.1.0);
    }
    while left > 0
        invariant
            out@ == before + written,
            item_backup::same_but_backups(*connection, *old(connection)),
            wanted == recipe_book::behind(
                written,
                entries_written(left as nat, connection.backups@, r@, hashes@, to),
            ),
        decreases left,
    {
        let ghost step = entry_written(connection.backups@, r@, hashes@, to);
        write_entry(connection, r, out, hashes, to)?;
        left = left - 1;
        proof {
            let more = entries_written(left as nat, connection.backups@, r@, hashes@, to);
            recipe_book::lemma_joined(before, written, step.1.0);
            recipe_book::lemma_joined(written, step.1.0, more.1.0);
            written = written + step.1.0;
        }
    }
    proof {
        recipe_book::lemma_nothing(written);
    }
    Ok(())
}

fn write_book(connection: &mut UserConnection, r: &mut &[u8], hashes: &Vec<ComponentHash>, to: &Target) -> (res:
    Result<Vec<u8>, TranslateError>)
    ensures
        gave_payload(
            res,
            *old(connection),
            (*final(connection), final(r)@),
            book_written(old(connection).backups@, old(r)@, hashes@, to),
        ),
{
    reveal(book_written);
    let n: i32 = wire::or_malformed(wire::get_var_int(r))?;
    if n < 0 || n > recipe_book::MAX_RECIPE_ENTRIES {
        return Err(TranslateError::Count);
    }
    let mut out: Vec<u8> = wire::var_int_bytes(n);
    write_entries(n as u32, connection, r, &mut out, hashes, to)?;
    let replace: bool = wire::or_malformed(wire::get_bool(r))?;
    wire::write_bool(&mut out, replace);
    Ok(out)
}

fn write_group(r: &mut &[u8], out: &mut Vec<u8>, table: &IdMapping) -> (res: Result<(), TranslateError>)
    ensures
        recipe_book::ended(res, final(r)@, group_written(old(r)@, table@).1),
        res is Ok ==> final(out)@ == old(out)@ + group_written(old(r)@, table@).0,
{
    let ghost before = out@;
    let name: &[u8] = wire::or_malformed(wire::get_str(r))?;
    let n: i32 = wire::or_malformed(wire::get_var_int(r))?;
    if n < 0 || n > recipe_book::MAX_RECIPE_LIST {
        return Err(TranslateError::Count);
    }
    wire::write_str(out, name);
    wire::write_var_int(out, n);
    proof {
        let head = wire::enc_str(name@) + wire::enc_var_int(n);
        recipe_book::lemma_joined(before, wire::enc_str(name@), wire::enc_var_int(n));
        recipe_book::lemma_joined(before, head, recipe_book::items_written(n as nat, r@, table@).0);
    }
    recipe_book::write_items(n as u32, r, out, table)
}

#[verifier::loop_isolation(false)]
fn write_groups(n: u32, r: &mut &[u8], out: &mut Vec<u8>, table: &IdMapping) -> (res: Result<(), TranslateError>)
    ensures
        recipe_book::ended(res, final(r)@, groups_written(n as nat, old(r)@, table@).1),
        res is Ok ==> final(out)@ == old(out)@ + groups_written(n as nat, old(r)@, table@).0,
{
    let ghost before = out@;
    let ghost wanted = groups_written(n as nat, r@, table@);
    let ghost mut written: Seq<u8> = seq![];
    let mut left: u32 = n;
    proof {
        recipe_book::lemma_nothing(before);
        recipe_book::lemma_nothing(wanted.0);
    }
    while left > 0
        invariant
            out@ == before + written,
            wanted == recipe_book::after(written, groups_written(left as nat, r@, table@)),
        decreases left,
    {
        let ghost step = group_written(r@, table@);
        write_group(r, out, table)?;
        left = left - 1;
        proof {
            recipe_book::lemma_joined(before, written, step.0);
            recipe_book::lemma_joined(written, step.0, groups_written(left as nat, r@, table@).0);
            written = written + step.0;
        }
    }
    proof {
        recipe_book::lemma_nothing(written);
    }
    Ok(())
}

fn write_stonecutter(
    connection: &mut UserConnection,
    r: &mut &[u8],
    out: &mut Vec<u8>,
    hashes: &Vec<ComponentHash>,
    to: &Target,
) -> (res: Result<(), TranslateError>)
    ensures
        ran(
            res,
            (*old(connection), old(out)@),
            (*final(connection), final(out)@, final(r)@),
            stonecutter_written(old(connection).backups@, old(r)@, hashes@, to),
        ),
{
    let ghost before = out@;
    let ghost input = recipe_book::holder_set_written(r@, to.ids.items@);
    recipe_book::holder_set(r, out, &to.ids.items)?;
    proof {
        recipe_book::lemma_joined(
            before,
            input.0,
            recipe_book::display_written(connection.backups@, r@, true, hashes@, to).1.0,
        );
    }
    recipe_book::slot_display(connection, r, out, true, hashes, to)
}

#[verifier::loop_isolation(false)]
#[verifier::spinoff_prover]
#[verifier::rlimit(60)]
fn write_stonecutters(
    n: u32,
    connection: &mut UserConnection,
    r: &mut &[u8],
    out: &mut Vec<u8>,
    hashes: &Vec<ComponentHash>,
    to: &Target,
) -> (res: Result<(), TranslateError>)
    ensures
        ran(
            res,
            (*old(connection), old(out)@),
            (*final(connection), final(out)@, final(r)@),
            stonecutters_written(n as nat, old(connection).backups@, old(r)@, hashes@, to),
        ),
{
    let ghost before = out@;
    let ghost wanted = stonecutters_written(n as nat, connection.backups@, r@, hashes@, to);
    let ghost mut written: Seq<u8> = seq![];
    let mut left: u32 = n;
    proof {
        recipe_book::lemma_nothing(before);
        recipe_book::lemma_nothing(wanted.1.0);
    }
    while left > 0
        invariant
            out@ == before + written,
            item_backup::same_but_backups(*connection, *old(connection)),
            wanted == recipe_book::behind(
                written,
                stonecutters_written(left as nat, connection.backups@, r@, hashes@, to),
            ),
        decreases left,
    {
        let ghost step = stonecutter_written(connection.backups@, r@, hashes@, to);
        write_stonecutter(connection, r, out, hashes, to)?;
        left = left - 1;
        proof {
            let more = stonecutters_written(left as nat, connection.backups@, r@, hashes@, to);
            recipe_book::lemma_joined(before, written, step.1.0);
            recipe_book::lemma_joined(written, step.1.0, more.1.0);
            written = written + step.1.0;
        }
    }
    proof {
        recipe_book::lemma_nothing(written);
    }
    Ok(())
}

fn write_update(connection: &mut UserConnection, r: &mut &[u8], hashes: &Vec<ComponentHash>, to: &Target) -> (res:
    Result<Vec<u8>, TranslateError>)
    ensures
        gave_payload(
            res,
            *old(connection),
            (*final(connection), final(r)@),
            update_written(old(connection).backups@, old(r)@, hashes@, to),
        ),
{
    reveal(update_written);
    let n: i32 = wire::or_malformed(wire::get_var_int(r))?;
    if n < 0 || n > recipe_book::MAX_RECIPE_ENTRIES {
        return Err(TranslateError::Count);
    }
    let mut out: Vec<u8> = wire::var_int_bytes(n);
    write_groups(n as u32, r, &mut out, &to.ids.items)?;
    let m: i32 = wire::or_malformed(wire::get_var_int(r))?;
    if m < 0 || m > recipe_book::MAX_RECIPE_ENTRIES {
        return Err(TranslateError::Count);
    }
    wire::write_var_int(&mut out, m);
    write_stonecutters(m as u32, connection, r, &mut out, hashes, to)?;
    Ok(out)
}

fn write_ghost(connection: &mut UserConnection, r: &mut &[u8], hashes: &Vec<ComponentHash>, to: &Target) -> (res:
    Result<Vec<u8>, TranslateError>)
    ensures
        gave_payload(
            res,
            *old(connection),
            (*final(connection), final(r)@),
            ghost_written(old(connection).backups@, old(r)@, hashes@, to),
        ),
{
    reveal(ghost_written);
    let container: i32 = wire::or_malformed(wire::get_var_int(r))?;
    let mut out: Vec<u8> = wire::var_int_bytes(container);
    recipe_book::recipe_display(connection, r, &mut out, hashes, to)?;
    Ok(out)
}

// --- the recipe book for older clients -----------------------------------------------------------------

/// `n` recipes, those that can be put together put behind `recipes`.
pub open spec fn take_recipes(
    recipes: Seq<RecipeView>,
    n: nat,
    rows: Seq<Row>,
    s: Seq<u8>,
    hashes: Seq<ComponentHash>,
    to: &Target,
) -> Taken<Seq<RecipeView>>
    decreases n,
{
    if n == 0 {
        (rows, Ok((recipes, s)))
    } else {
        match recipe_legacy::take_recipe(rows, s, hashes, to) {
            (rows1, Ok((recipe, rest))) => take_recipes(
                match recipe {
                    Some(recipe) => recipes.push(recipe),
                    None => recipes,
                },
                (n - 1) as nat,
                rows1,
                rest,
                hashes,
                to,
            ),
            (rows1, Err(error)) => (rows1, Err(error)),
        }
    }
}

/// The recipes of a packet, and whether they replace those of the book.
#[verifier::opaque]
pub open spec fn take_additions(rows: Seq<Row>, s: Seq<u8>, hashes: Seq<ComponentHash>, to: &Target) -> Taken<
    (Seq<RecipeView>, bool),
> {
    match wire::take_var_int(s) {
        Some((n, t)) => if n < 0 || n > recipe_book::MAX_RECIPE_ENTRIES {
            (rows, Err(TranslateError::Count))
        } else {
            match take_recipes(seq![], n as nat, rows, t, hashes, to) {
                (rows1, Ok((recipes, u))) => (
                    rows1,
                    match wire::take_bool(u) {
                        Some((replace, rest)) => Ok(((recipes, replace), rest)),
                        None => Err(TranslateError::Malformed),
                    },
                ),
                (rows1, Err(error)) => (rows1, Err(error)),
            }
        },
        None => (rows, Err(TranslateError::Malformed)),
    }
}

/// A book with more recipes, or with others.
pub open spec fn with_recipes(book: Book, recipes: Seq<RecipeView>, replace: bool) -> Book {
    Book {
        recipes: if replace {
            recipes
        } else {
            book.recipes + recipes
        },
        ..book
    }
}

/// The two packets that bring an old client's book up to date.
pub open spec fn book_packets(book: Book, to: &Target) -> Result<Fate, TranslateError> {
    match (recipe_legacy::enc_definitions(book, to), recipe_legacy::enc_init(book)) {
        (Ok(update), Ok(unlock)) => Ok(Fate::UpdateAndUnlock(update, unlock)),
        (Ok(update), Err(error)) => Err(error),
        (Err(error), _) => Err(error),
    }
}

pub open spec fn legacy_add(rows: Seq<Row>, book: Book, s: Seq<u8>, hashes: Seq<ComponentHash>, to: &Target) -> After {
    match take_additions(rows, s, hashes, to) {
        (rows1, Ok(((recipes, replace), rest))) => {
            let after = with_recipes(book, recipes, replace);
            After {
                rows: rows1,
                book: after,
                fate: match book_packets(after, to) {
                    Ok(fate) => Ok((fate, rest)),
                    Err(error) => Err(error),
                },
            }
        },
        (rows1, Err(error)) => refused(rows1, book, error),
    }
}

/// What stands behind `n` named lists of items.
pub open spec fn drop_groups(n: nat, s: Seq<u8>) -> Result<Seq<u8>, TranslateError>
    decreases n,
{
    if n == 0 {
        Ok(s)
    } else {
        match wire::take_str(s) {
            Some((name, t)) => match wire::take_var_int(t) {
                Some((m, u)) => if m < 0 || m > recipe_book::MAX_RECIPE_LIST {
                    Err(TranslateError::Count)
                } else {
                    match shape::drop_var_ints(m as nat, u) {
                        Some(rest) => drop_groups((n - 1) as nat, rest),
                        None => Err(TranslateError::Malformed),
                    }
                },
                None => Err(TranslateError::Malformed),
            },
            None => Err(TranslateError::Malformed),
        }
    }
}

/// A stonecutter recipe with its number.
#[verifier::opaque]
pub open spec fn take_stonecutter(
    index: int,
    rows: Seq<Row>,
    s: Seq<u8>,
    hashes: Seq<ComponentHash>,
    to: &Target,
) -> Taken<RecipeView> {
    match recipe_legacy::take_holder_set(rows, s, seq![recipe_legacy::placeholder(to)], hashes, to) {
        (rows1, Ok((ingredient, t))) => match recipe_legacy::take_single(rows1, t, hashes, to) {
            (rows2, Ok((result, rest))) => (
                rows2,
                Ok(
                    (
                        RecipeView {
                            id: index as i32,
                            group: None,
                            category: 0,
                            highlight: false,
                            data: RecipeBody::Stonecutter { ingredient, result },
                        },
                        rest,
                    ),
                ),
            ),
            (rows2, Err(error)) => (rows2, Err(error)),
        },
        (rows1, Err(error)) => (rows1, Err(error)),
    }
}

/// `n` stonecutter recipes, numbered from `index` on and put behind `recipes`.
pub open spec fn take_stonecutters(
    recipes: Seq<RecipeView>,
    index: int,
    n: nat,
    rows: Seq<Row>,
    s: Seq<u8>,
    hashes: Seq<ComponentHash>,
    to: &Target,
) -> Taken<Seq<RecipeView>>
    decreases n,
{
    if n == 0 {
        (rows, Ok((recipes, s)))
    } else {
        match take_stonecutter(index, rows, s, hashes, to) {
            (rows1, Ok((recipe, rest))) => take_stonecutters(
                recipes.push(recipe),
                index + 1,
                (n - 1) as nat,
                rows1,
                rest,
                hashes,
                to,
            ),
            (rows1, Err(error)) => (rows1, Err(error)),
        }
    }
}

#[verifier::opaque]
pub open spec fn take_update(rows: Seq<Row>, s: Seq<u8>, hashes: Seq<ComponentHash>, to: &Target) -> Taken<
    Seq<RecipeView>,
> {
    match wire::take_var_int(s) {
        Some((n, t)) => if n < 0 || n > recipe_book::MAX_RECIPE_ENTRIES {
            (rows, Err(TranslateError::Count))
        } else {
            match drop_groups(n as nat, t) {
                Ok(u) => match wire::take_var_int(u) {
                    Some((m, v)) => if m < 0 || m > recipe_book::MAX_RECIPE_ENTRIES {
                        (rows, Err(TranslateError::Count))
                    } else {
                        take_stonecutters(seq![], 0, m as nat, rows, v, hashes, to)
                    },
                    None => (rows, Err(TranslateError::Malformed)),
                },
                Err(error) => (rows, Err(error)),
            }
        },
        None => (rows, Err(TranslateError::Malformed)),
    }
}

/// The stonecutter recipes are kept for the next packet of the book.
pub open spec fn legacy_update(rows: Seq<Row>, book: Book, s: Seq<u8>, hashes: Seq<ComponentHash>, to: &Target) -> After {
    match take_update(rows, s, hashes, to) {
        (rows1, Ok((recipes, rest))) => After {
            rows: rows1,
            book: Book { stonecutter_recipes: recipes, ..book },
            fate: Ok((Fate::Dropped, rest)),
        },
        (rows1, Err(error)) => refused(rows1, book, error),
    }
}

/// `n` ids of recipes, put behind `ids`.
pub open spec fn take_recipe_ids(ids: Seq<i32>, n: nat, s: Seq<u8>) -> Result<(Seq<i32>, Seq<u8>), TranslateError>
    decreases n,
{
    if n == 0 {
        Ok((ids, s))
    } else {
        match wire::take_var_int(s) {
            Some((id, rest)) => if id < 0 {
                Err(TranslateError::Identifier)
            } else {
                take_recipe_ids(ids.push(id), (n - 1) as nat, rest)
            },
            None => Err(TranslateError::Malformed),
        }
    }
}

/// The recipes whose ids are not listed.
pub open spec fn recipes_left(recipes: Seq<RecipeView>, ids: Seq<i32>) -> Seq<RecipeView>
    decreases recipes.len(),
{
    if recipes.len() == 0 {
        seq![]
    } else if ids.contains(recipes.last().id) {
        recipes_left(recipes.drop_last(), ids)
    } else {
        recipes_left(recipes.drop_last(), ids).push(recipes.last())
    }
}

pub open spec fn legacy_remove(rows: Seq<Row>, book: Book, s: Seq<u8>) -> After {
    match wire::take_var_int(s) {
        Some((n, t)) => if n < 0 || n > recipe_book::MAX_RECIPE_ENTRIES {
            refused(rows, book, TranslateError::Count)
        } else {
            match take_recipe_ids(seq![], n as nat, t) {
                Ok((ids, rest)) => {
                    let after = Book { recipes: recipes_left(book.recipes, ids), ..book };
                    After {
                        rows,
                        book: after,
                        fate: match recipe_legacy::enc_remove(after, ids) {
                            Ok(payload) => Ok((Fate::Unlock(payload), rest)),
                            Err(error) => Err(error),
                        },
                    }
                },
                Err(error) => refused(rows, book, error),
            }
        },
        None => refused(rows, book, TranslateError::Malformed),
    }
}

/// `n` settings, put behind `settings`.
pub open spec fn take_settings(settings: Seq<bool>, n: nat, s: Seq<u8>) -> Option<(Seq<bool>, Seq<u8>)>
    decreases n,
{
    if n == 0 {
        Some((settings, s))
    } else {
        match wire::take_bool(s) {
            Some((setting, rest)) => take_settings(settings.push(setting), (n - 1) as nat, rest),
            None => None,
        }
    }
}

pub open spec fn legacy_settings(rows: Seq<Row>, book: Book, s: Seq<u8>) -> After {
    match take_settings(seq![], recipe_legacy::RECIPE_BOOK_SETTINGS as nat, s) {
        Some((settings, rest)) => After {
            rows,
            book: Book { settings, ..book },
            fate: Ok((Fate::Dropped, rest)),
        },
        None => refused(rows, book, TranslateError::Malformed),
    }
}

#[verifier::loop_isolation(false)]
fn read_recipes(n: u32, connection: &mut UserConnection, r: &mut &[u8], hashes: &Vec<ComponentHash>, to: &Target) -> (res:
    Result<Vec<Recipe>, TranslateError>)
    ensures
        ({
            let wanted = take_recipes(seq![], n as nat, old(connection).backups@, old(r)@, hashes@, to);
            recipe_legacy::kept(*old(connection), *final(connection), wanted.0) && match wanted.1 {
                Ok((recipes, rest)) => res is Ok && recipe_legacy::recipe_views(res->Ok_0@) == recipes && final(r)@
                    == rest,
                Err(error) => res is Err && res->Err_0 == error,
            }
        }),
{
    let ghost wanted = take_recipes(seq![], n as nat, connection.backups@, r@, hashes@, to);
    let mut recipes: Vec<Recipe> = Vec::new();
    assert(recipe_legacy::recipe_views(recipes@) =~= seq![]);
    let mut left: u32 = n;
    while left > 0
        invariant
            item_backup::same_but_backups(*connection, *old(connection)),
            wanted == take_recipes(
                recipe_legacy::recipe_views(recipes@),
                left as nat,
                connection.backups@,
                r@,
                hashes@,
                to,
            ),
        decreases left,
    {
        match recipe_legacy::read_recipe(connection, r, hashes, to)? {
            Some(recipe) => {
                let ghost before = recipe_legacy::recipe_views(recipes@);
                let ghost view = recipe@;
                recipes.push(recipe);
                assert(recipe_legacy::recipe_views(recipes@) =~= before.push(view));
            },
            None => {},
        }
        left = left - 1;
    }
    Ok(recipes)
}

fn read_additions(connection: &mut UserConnection, r: &mut &[u8], hashes: &Vec<ComponentHash>, to: &Target) -> (res:
    Result<(Vec<Recipe>, bool), TranslateError>)
    ensures
        ({
            let wanted = take_additions(old(connection).backups@, old(r)@, hashes@, to);
            recipe_legacy::kept(*old(connection), *final(connection), wanted.0) && match wanted.1 {
                Ok(((recipes, replace), rest)) => res is Ok && recipe_legacy::recipe_views(res->Ok_0.0@) == recipes
                    && res->Ok_0.1 == replace && final(r)@ == rest,
                Err(error) => res is Err && res->Err_0 == error,
            }
        }),
{
    reveal(take_additions);
    let n: i32 = wire::or_malformed(wire::get_var_int(r))?;
    if n < 0 || n > recipe_book::MAX_RECIPE_ENTRIES {
        return Err(TranslateError::Count);
    }
    let recipes: Vec<Recipe> = read_recipes(n as u32, connection, r, hashes, to)?;
    let replace: bool = wire::or_malformed(wire::get_bool(r))?;
    Ok((recipes, replace))
}

fn extend_book(storage: &mut RecipeBookStorage, recipes: Vec<Recipe>, replace: bool)
    ensures
        final(storage)@ == with_recipes(
            old(storage)@,
            recipe_legacy::recipe_views(recipes@),
            replace,
        ),
{
    let ghost before = recipe_legacy::recipe_views(storage.recipes@);
    let ghost more = recipe_legacy::recipe_views(recipes@);
    let mut recipes: Vec<Recipe> = recipes;
    if replace {
        storage.recipes = recipes;
    } else {
        storage.recipes.append(&mut recipes);
        assert(recipe_legacy::recipe_views(storage.recipes@) =~= before + more);
    }
}

fn book_outcome(storage: &RecipeBookStorage, to: &Target) -> (res: Result<Outcome, TranslateError>)
    ensures
        match book_packets(storage@, to) {
            Ok(fate) => res is Ok && res->Ok_0@ == fate,
            Err(error) => res is Err && res->Err_0 == error,
        },
{
    let update: Vec<u8> = recipe_legacy::encode_update_recipes(storage, to)?;
    let unlock: Vec<u8> = recipe_legacy::encode_recipe_book_init(storage)?;
    Ok(Outcome::UpdateAndUnlock(update, unlock))
}

#[verifier::loop_isolation(false)]
fn skip_groups(n: u32, r: &mut &[u8]) -> (res: Result<(), TranslateError>)
    ensures
        match drop_groups(n as nat, old(r)@) {
            Ok(rest) => res is Ok && final(r)@ == rest,
            Err(error) => res is Err && res->Err_0 == error,
        },
{
    let ghost wanted = drop_groups(n as nat, r@);
    let mut left: u32 = n;
    while left > 0
        invariant
            wanted == drop_groups(left as nat, r@),
        decreases left,
    {
        let name: &[u8] = wire::or_malformed(wire::get_str(r))?;
        let m: i32 = wire::or_malformed(wire::get_var_int(r))?;
        if m < 0 || m > recipe_book::MAX_RECIPE_LIST {
            return Err(TranslateError::Count);
        }
        wire::or_malformed(shape::skip_var_ints(m as u32, r))?;
        left = left - 1;
    }
    Ok(())
}

#[verifier::spinoff_prover]
#[verifier::rlimit(60)]
fn read_stonecutter(
    index: u32,
    connection: &mut UserConnection,
    r: &mut &[u8],
    hashes: &Vec<ComponentHash>,
    to: &Target,
) -> (res: Result<Recipe, TranslateError>)
    requires
        index <= i32::MAX,
    ensures
        ({
            let wanted = take_stonecutter(index as int, old(connection).backups@, old(r)@, hashes@, to);
            recipe_legacy::kept(*old(connection), *final(connection), wanted.0) && match wanted.1 {
                Ok((recipe, rest)) => res is Ok && res->Ok_0@ == recipe && final(r)@ == rest,
                Err(error) => res is Err && res->Err_0 == error,
            }
        }),
{
    reveal(take_stonecutter);
    let ingredient: Vec<Item> = recipe_legacy::read_holder_set_items(connection, r, true, hashes, to)?;
    let result: Item = recipe_legacy::read_single_slot_display(connection, r, hashes, to)?;
    Ok(
        Recipe {
            id: index as i32,
            group: None,
            category: 0,
            highlight: false,
            data: RecipeData::Stonecutter { ingredient, result },
        },
    )
}

#[verifier::loop_isolation(false)]
fn read_stonecutters(
    n: u32,
    connection: &mut UserConnection,
    r: &mut &[u8],
    hashes: &Vec<ComponentHash>,
    to: &Target,
) -> (res: Result<Vec<Recipe>, TranslateError>)
    requires
        n <= i32::MAX,
    ensures
        ({
            let wanted = take_stonecutters(seq![], 0, n as nat, old(connection).backups@, old(r)@, hashes@, to);
            recipe_legacy::kept(*old(connection), *final(connection), wanted.0) && match wanted.1 {
                Ok((recipes, rest)) => res is Ok && recipe_legacy::recipe_views(res->Ok_0@) == recipes && final(r)@
                    == rest,
                Err(error) => res is Err && res->Err_0 == error,
            }
        }),
{
    let ghost wanted = take_stonecutters(seq![], 0, n as nat, connection.backups@, r@, hashes@, to);
    let mut recipes: Vec<Recipe> = Vec::new();
    assert(recipe_legacy::recipe_views(recipes@) =~= seq![]);
    let mut index: u32 = 0;
    while index < n
        invariant
            index <= n,
            item_backup::same_but_backups(*connection, *old(connection)),
            wanted == take_stonecutters(
                recipe_legacy::recipe_views(recipes@),
                index as int,
                (n - index) as nat,
                connection.backups@,
                r@,
                hashes@,
                to,
            ),
        decreases n - index,
    {
        let recipe: Recipe = read_stonecutter(index, connection, r, hashes, to)?;
        let ghost before = recipe_legacy::recipe_views(recipes@);
        let ghost view = recipe@;
        recipes.push(recipe);
        assert(recipe_legacy::recipe_views(recipes@) =~= before.push(view));
        index = index + 1;
    }
    Ok(recipes)
}

fn read_update(connection: &mut UserConnection, r: &mut &[u8], hashes: &Vec<ComponentHash>, to: &Target) -> (res:
    Result<Vec<Recipe>, TranslateError>)
    ensures
        ({
            let wanted = take_update(old(connection).backups@, old(r)@, hashes@, to);
            recipe_legacy::kept(*old(connection), *final(connection), wanted.0) && match wanted.1 {
                Ok((recipes, rest)) => res is Ok && recipe_legacy::recipe_views(res->Ok_0@) == recipes && final(r)@
                    == rest,
                Err(error) => res is Err && res->Err_0 == error,
            }
        }),
{
    reveal(take_update);
    let n: i32 = wire::or_malformed(wire::get_var_int(r))?;
    if n < 0 || n > recipe_book::MAX_RECIPE_ENTRIES {
        return Err(TranslateError::Count);
    }
    skip_groups(n as u32, r)?;
    let m: i32 = wire::or_malformed(wire::get_var_int(r))?;
    if m < 0 || m > recipe_book::MAX_RECIPE_ENTRIES {
        return Err(TranslateError::Count);
    }
    read_stonecutters(m as u32, connection, r, hashes, to)
}

#[verifier::loop_isolation(false)]
fn read_recipe_ids(n: u32, r: &mut &[u8]) -> (res: Result<Vec<i32>, TranslateError>)
    ensures
        match take_recipe_ids(seq![], n as nat, old(r)@) {
            Ok((ids, rest)) => res is Ok && res->Ok_0@ == ids && final(r)@ == rest,
            Err(error) => res is Err && res->Err_0 == error,
        },
{
    let ghost wanted = take_recipe_ids(seq![], n as nat, r@);
    let mut ids: Vec<i32> = Vec::new();
    let mut left: u32 = n;
    while left > 0
        invariant
            wanted == take_recipe_ids(ids@, left as nat, r@),
        decreases left,
    {
        let id: i32 = wire::or_malformed(wire::get_var_int(r))?;
        if id < 0 {
            return Err(TranslateError::Identifier);
        }
        ids.push(id);
        left = left - 1;
    }
    Ok(ids)
}

/// Takes the recipes with the listed ids out of a list.
#[verifier::loop_isolation(false)]
fn drop_recipes(recipes: Vec<Recipe>, ids: &Vec<i32>) -> (res: Vec<Recipe>)
    ensures
        recipe_legacy::recipe_views(res@) == recipes_left(recipe_legacy::recipe_views(recipes@), ids@),
{
    let ghost all = recipe_legacy::recipe_views(recipes@);
    let ghost wanted = recipes_left(all, ids@);
    let mut left: Vec<Recipe> = recipes;
    let mut back: Vec<Recipe> = Vec::new();
    assert(wanted =~= recipes_left(all, ids@) + recipe_legacy::recipe_views(back@).reverse());
    while left.len() > 0
        invariant
            wanted == recipes_left(recipe_legacy::recipe_views(left@), ids@) + recipe_legacy::recipe_views(
                back@,
            ).reverse(),
        decreases left.len(),
    {
        let ghost views = recipe_legacy::recipe_views(left@);
        let ghost kept = recipe_legacy::recipe_views(back@);
        match left.pop() {
            Some(recipe) => {
                let ghost view = recipe@;
                assert(recipe_legacy::recipe_views(left@) =~= views.drop_last());
                assert(view == views.last());
                if !order::holds_id(ids, recipe.id) {
                    back.push(recipe);
                    assert(recipe_legacy::recipe_views(back@) =~= kept.push(view));
                    let ghost front = recipes_left(views.drop_last(), ids@);
                    assert(front.push(view) + kept.reverse() =~= front + kept.push(view).reverse());
                }
            },
            None => {},
        }
    }
    let mut out: Vec<Recipe> = Vec::new();
    assert(wanted =~= recipe_legacy::recipe_views(out@) + recipe_legacy::recipe_views(back@).reverse());
    while back.len() > 0
        invariant
            wanted == recipe_legacy::recipe_views(out@) + recipe_legacy::recipe_views(back@).reverse(),
        decreases back.len(),
    {
        let ghost kept = recipe_legacy::recipe_views(back@);
        let ghost done = recipe_legacy::recipe_views(out@);
        match back.pop() {
            Some(recipe) => {
                let ghost view = recipe@;
                assert(recipe_legacy::recipe_views(back@) =~= kept.drop_last());
                out.push(recipe);
                assert(recipe_legacy::recipe_views(out@) =~= done.push(view));
                assert(done + kept.reverse() =~= done.push(view) + kept.drop_last().reverse());
            },
            None => {},
        }
    }
    assert(recipe_legacy::recipe_views(out@) =~= wanted);
    out
}

fn read_settings(r: &mut &[u8]) -> (res: Result<[bool; 8], TranslateError>)
    ensures
        match take_settings(seq![], recipe_legacy::RECIPE_BOOK_SETTINGS as nat, old(r)@) {
            Some((settings, rest)) => res is Ok && res->Ok_0@ == settings && final(r)@ == rest,
            None => res is Err && res->Err_0 == TranslateError::Malformed,
        },
{
    reveal_with_fuel(take_settings, 9);
    let a: bool = wire::or_malformed(wire::get_bool(r))?;
    let b: bool = wire::or_malformed(wire::get_bool(r))?;
    let c: bool = wire::or_malformed(wire::get_bool(r))?;
    let d: bool = wire::or_malformed(wire::get_bool(r))?;
    let e: bool = wire::or_malformed(wire::get_bool(r))?;
    let f: bool = wire::or_malformed(wire::get_bool(r))?;
    let g: bool = wire::or_malformed(wire::get_bool(r))?;
    let h: bool = wire::or_malformed(wire::get_bool(r))?;
    let settings: [bool; 8] = [a, b, c, d, e, f, g, h];
    assert(settings@ =~= Seq::<bool>::empty().push(a).push(b).push(c).push(d).push(e).push(f).push(g).push(h));
    Ok(settings)
}

// --- packets ---------------------------------------------------------------------------------------------

/// What becomes of a packet that adds recipes to the book.
pub open spec fn book_added(
    rows: Seq<Row>,
    book: Book,
    s: Seq<u8>,
    hashes: Seq<ComponentHash>,
    layout: Version,
    to: &Target,
) -> After {
    if layout != version::V_26_3 {
        refused(rows, book, TranslateError::SourceLayout)
    } else if to.version < version::V_1_21_2 {
        legacy_add(rows, book, s, hashes, to)
    } else {
        passed_on(book_written(rows, s, hashes, to), book)
    }
}

/// What becomes of a packet that updates the recipes.
pub open spec fn recipes_updated(
    rows: Seq<Row>,
    book: Book,
    s: Seq<u8>,
    hashes: Seq<ComponentHash>,
    layout: Version,
    to: &Target,
) -> After {
    if layout != version::V_26_3 {
        refused(rows, book, TranslateError::SourceLayout)
    } else if to.version < version::V_1_21_2 {
        legacy_update(rows, book, s, hashes, to)
    } else {
        passed_on(update_written(rows, s, hashes, to), book)
    }
}

/// What becomes of a packet that shows a recipe. Clients before 1.21.2 do not get
/// it.
pub open spec fn ghost_placed(
    rows: Seq<Row>,
    book: Book,
    s: Seq<u8>,
    hashes: Seq<ComponentHash>,
    layout: Version,
    to: &Target,
) -> After {
    if to.version < version::V_1_21_2 {
        After { rows, book, fate: Ok((Fate::Dropped, s)) }
    } else if layout != version::V_26_3 {
        refused(rows, book, TranslateError::SourceLayout)
    } else {
        passed_on(ghost_written(rows, s, hashes, to), book)
    }
}

/// What becomes of a packet that removes recipes.
pub open spec fn book_removed(rows: Seq<Row>, book: Book, s: Seq<u8>, layout: Version, version: Version) -> After {
    if version >= version::V_1_21_2 {
        After { rows, book, fate: Ok((Fate::Passed(s), seq![])) }
    } else if layout != version::V_26_3 {
        refused(rows, book, TranslateError::SourceLayout)
    } else {
        legacy_remove(rows, book, s)
    }
}

/// What becomes of a packet with the settings of the book.
pub open spec fn book_set(rows: Seq<Row>, book: Book, s: Seq<u8>, layout: Version, version: Version) -> After {
    if version >= version::V_1_21_2 {
        After { rows, book, fate: Ok((Fate::Passed(s), seq![])) }
    } else if layout != version::V_26_3 {
        refused(rows, book, TranslateError::SourceLayout)
    } else {
        legacy_settings(rows, book, s)
    }
}

fn outcome_of(payload: Result<Vec<u8>, TranslateError>) -> (res: Result<Outcome, TranslateError>)
    ensures
        match payload {
            Ok(bytes) => res is Ok && res->Ok_0@ == Fate::Passed(bytes@),
            Err(error) => res is Err && res->Err_0 == error,
        },
{
    match payload {
        Ok(bytes) => Ok(Outcome::Passed(bytes)),
        Err(error) => Err(error),
    }
}

/// Translates a packet that adds recipes to the book.
pub fn rewrite_recipe_book_add(
    connection: &mut UserConnection,
    r: &mut &[u8],
    hashes: &Vec<ComponentHash>,
    layout: Version,
    to: &Target,
) -> (res: Result<Outcome, TranslateError>)
    ensures
        handled(
            res,
            *old(connection),
            *final(connection),
            final(r)@,
            book_added(old(connection).backups@, old(connection).recipes@, old(r)@, hashes@, layout, to),
        ),
{
    if layout != version::V_26_3 {
        return Err(TranslateError::SourceLayout);
    }
    if to.version >= version::V_1_21_2 {
        return outcome_of(write_book(connection, r, hashes, to));
    }
    let (recipes, replace): (Vec<Recipe>, bool) = read_additions(connection, r, hashes, to)?;
    extend_book(&mut connection.recipes, recipes, replace);
    book_outcome(&connection.recipes, to)
}

/// Translates a packet that updates the recipes.
pub fn rewrite_update_recipes(
    connection: &mut UserConnection,
    r: &mut &[u8],
    hashes: &Vec<ComponentHash>,
    layout: Version,
    to: &Target,
) -> (res: Result<Outcome, TranslateError>)
    ensures
        handled(
            res,
            *old(connection),
            *final(connection),
            final(r)@,
            recipes_updated(old(connection).backups@, old(connection).recipes@, old(r)@, hashes@, layout, to),
        ),
{
    if layout != version::V_26_3 {
        return Err(TranslateError::SourceLayout);
    }
    if to.version >= version::V_1_21_2 {
        return outcome_of(write_update(connection, r, hashes, to));
    }
    connection.recipes.stonecutter_recipes = read_update(connection, r, hashes, to)?;
    Ok(Outcome::Dropped)
}

/// Translates a packet that shows a recipe.
pub fn rewrite_place_ghost_recipe(
    connection: &mut UserConnection,
    r: &mut &[u8],
    hashes: &Vec<ComponentHash>,
    layout: Version,
    to: &Target,
) -> (res: Result<Outcome, TranslateError>)
    ensures
        handled(
            res,
            *old(connection),
            *final(connection),
            final(r)@,
            ghost_placed(old(connection).backups@, old(connection).recipes@, old(r)@, hashes@, layout, to),
        ),
{
    if to.version < version::V_1_21_2 {
        return Ok(Outcome::Dropped);
    }
    if layout != version::V_26_3 {
        return Err(TranslateError::SourceLayout);
    }
    outcome_of(write_ghost(connection, r, hashes, to))
}

fn take_all(r: &mut &[u8]) -> (res: Vec<u8>)
    ensures
        res@ == old(r)@,
        final(r)@ == Seq::<u8>::empty(),
{
    let all: Vec<u8> = slice_to_vec(*r);
    let length: usize = r.len();
    let (taken, rest): (&[u8], &[u8]) = r.split_at(length);
    *r = rest;
    assert(r@ =~= Seq::<u8>::empty());
    all
}

/// Translates a packet that removes recipes from the book.
pub fn rewrite_legacy_recipe_book_remove(
    connection: &mut UserConnection,
    r: &mut &[u8],
    layout: Version,
    version: Version,
) -> (res: Result<Outcome, TranslateError>)
    ensures
        handled(
            res,
            *old(connection),
            *final(connection),
            final(r)@,
            book_removed(old(connection).backups@, old(connection).recipes@, old(r)@, layout, version),
        ),
{
    if version >= version::V_1_21_2 {
        return Ok(Outcome::Passed(take_all(r)));
    }
    if layout != version::V_26_3 {
        return Err(TranslateError::SourceLayout);
    }
    let n: i32 = wire::or_malformed(wire::get_var_int(r))?;
    if n < 0 || n > recipe_book::MAX_RECIPE_ENTRIES {
        return Err(TranslateError::Count);
    }
    let ids: Vec<i32> = read_recipe_ids(n as u32, r)?;
    let mut recipes: Vec<Recipe> = Vec::new();
    std::mem::swap(&mut recipes, &mut connection.recipes.recipes);
    connection.recipes.recipes = drop_recipes(recipes, &ids);
    let payload: Vec<u8> = recipe_legacy::encode_recipe_book_remove(&connection.recipes, &ids)?;
    Ok(Outcome::Unlock(payload))
}

/// Translates a packet with the settings of the book.
pub fn rewrite_legacy_recipe_book_settings(
    connection: &mut UserConnection,
    r: &mut &[u8],
    layout: Version,
    version: Version,
) -> (res: Result<Outcome, TranslateError>)
    ensures
        handled(
            res,
            *old(connection),
            *final(connection),
            final(r)@,
            book_set(old(connection).backups@, old(connection).recipes@, old(r)@, layout, version),
        ),
{
    if version >= version::V_1_21_2 {
        return Ok(Outcome::Passed(take_all(r)));
    }
    if layout != version::V_26_3 {
        return Err(TranslateError::SourceLayout);
    }
    connection.recipes.settings = read_settings(r)?;
    Ok(Outcome::Dropped)
}

/// A signed byte as an int.
pub open spec fn i8_of(b: u8) -> i32 {
    if b < 128 {
        b as i32
    } else {
        (b - 256) as i32
    }
}

/// A click on a recipe as the server reads it: the container and the number of
/// the display, and whatever stands behind them.
pub open spec fn click_native(s: Seq<u8>, version: Version) -> Result<Seq<u8>, TranslateError> {
    if version >= version::V_1_21_2 {
        Ok(s)
    } else {
        match wire::take_u8(s) {
            Some((container, t)) => match wire::take_str(t) {
                Some((name, rest)) => match recipe_legacy::id_of_identifier(name) {
                    Some(id) => Ok(wire::enc_var_int(i8_of(container)) + wire::enc_var_int(id) + rest),
                    None => Err(TranslateError::Identifier),
                },
                None => Err(TranslateError::Malformed),
            },
            None => Err(TranslateError::Malformed),
        }
    }
}

/// A recipe that a client has seen, as the server reads it.
pub open spec fn seen_native(s: Seq<u8>, version: Version) -> Result<Seq<u8>, TranslateError> {
    if version >= version::V_1_21_2 {
        Ok(s)
    } else {
        match wire::take_str(s) {
            Some((name, rest)) => match recipe_legacy::id_of_identifier(name) {
                Some(id) => Ok(wire::enc_var_int(id) + rest),
                None => Err(TranslateError::Identifier),
            },
            None => Err(TranslateError::Malformed),
        }
    }
}

/// Translates a click on a recipe.
pub fn rewrite_legacy_place_recipe(payload: &[u8], version: Version) -> (res: Result<Vec<u8>, TranslateError>)
    ensures
        match click_native(payload@, version) {
            Ok(bytes) => res is Ok && res->Ok_0@ == bytes,
            Err(error) => res is Err && res->Err_0 == error,
        },
{
    if version >= version::V_1_21_2 {
        return Ok(slice_to_vec(payload));
    }
    let mut r: &[u8] = payload;
    let container: u8 = wire::or_malformed(wire::get_u8(&mut r))?;
    let name: &[u8] = wire::or_malformed(wire::get_str(&mut r))?;
    match recipe_legacy::parse_synthetic_recipe_id(name) {
        Some(id) => {
            let mut out: Vec<u8> = wire::var_int_bytes(
                if container < 128 {
                    container as i32
                } else {
                    container as i32 - 256
                },
            );
            wire::write_var_int(&mut out, id);
            wire::write_bytes(&mut out, r);
            Ok(out)
        },
        None => Err(TranslateError::Identifier),
    }
}

/// Translates the news that a client has seen a recipe.
pub fn rewrite_legacy_seen_recipe(payload: &[u8], version: Version) -> (res: Result<Vec<u8>, TranslateError>)
    ensures
        match seen_native(payload@, version) {
            Ok(bytes) => res is Ok && res->Ok_0@ == bytes,
            Err(error) => res is Err && res->Err_0 == error,
        },
{
    if version >= version::V_1_21_2 {
        return Ok(slice_to_vec(payload));
    }
    let mut r: &[u8] = payload;
    let name: &[u8] = wire::or_malformed(wire::get_str(&mut r))?;
    match recipe_legacy::parse_synthetic_recipe_id(name) {
        Some(id) => {
            let mut out: Vec<u8> = wire::var_int_bytes(id);
            wire::write_bytes(&mut out, r);
            Ok(out)
        },
        None => Err(TranslateError::Identifier),
    }
}

// --- laws ----------------------------------------------------------------------------------------

/// The name that a recipe got leads the clicks on it, and the news that it was seen,
/// back to its id.
pub proof fn clicks_name_the_recipe(container: u8, id: i32, rest: Seq<u8>, version: Version)
    requires
        id >= 0,
        version < version::V_1_21_2,
    ensures
        click_native(seq![container] + wire::enc_str(recipe_legacy::identifier(id)) + rest, version) == Ok::<Seq<u8>, TranslateError>(
            wire::enc_var_int(i8_of(container)) + wire::enc_var_int(id) + rest,
        ),
        seen_native(wire::enc_str(recipe_legacy::identifier(id)) + rest, version) == Ok::<Seq<u8>, TranslateError>(
            wire::enc_var_int(id) + rest,
        ),
{
    let name = recipe_legacy::identifier(id);
    assert(vstd::arithmetic::power::pow(10, 10) == 10_000_000_000) by {
        reveal_with_fuel(vstd::arithmetic::power::pow, 11);
    }
    text::lemma_wide_is_short(id as nat, 6, 10);
    text::lemma_ascii_is_utf8(name);
    wire::str_round_trip(name, rest);
    recipe_legacy::recipe_names_lead_back(id);
    let s = seq![container] + wire::enc_str(name) + rest;
    assert(s.skip(1) =~= wire::enc_str(name) + rest);
}

proof fn lemma_first_setting(settings: Seq<bool>)
    requires
        settings.len() > 0,
    ensures
        recipe_legacy::enc_settings(settings) == wire::enc_bool(settings[0]) + recipe_legacy::enc_settings(
            settings.skip(1),
        ),
    decreases settings.len(),
{
    if settings.len() == 1 {
        assert(settings.drop_last() =~= seq![]);
        assert(settings.skip(1) =~= seq![]);
        assert(recipe_legacy::enc_settings(settings.drop_last()) =~= seq![]);
        assert(recipe_legacy::enc_settings(settings.skip(1)) =~= seq![]);
        assert(recipe_legacy::enc_settings(settings) =~= wire::enc_bool(settings[0]));
    } else {
        lemma_first_setting(settings.drop_last());
        assert(settings.drop_last().skip(1) =~= settings.skip(1).drop_last());
        assert(recipe_legacy::enc_settings(settings) =~= wire::enc_bool(settings[0]) + recipe_legacy::enc_settings(
            settings.skip(1),
        ));
    }
}

proof fn lemma_settings_read_back(done: Seq<bool>, left: Seq<bool>, rest: Seq<u8>)
    ensures
        take_settings(done, left.len(), recipe_legacy::enc_settings(left) + rest) == Some((done + left, rest)),
    decreases left.len(),
{
    if left.len() == 0 {
        assert(recipe_legacy::enc_settings(left) + rest =~= rest);
        assert(done + left =~= done);
    } else {
        let s = recipe_legacy::enc_settings(left) + rest;
        lemma_first_setting(left);
        assert(s.skip(1) =~= recipe_legacy::enc_settings(left.skip(1)) + rest);
        lemma_settings_read_back(done.push(left[0]), left.skip(1), rest);
        assert(done.push(left[0]) + left.skip(1) =~= done + left);
    }
}

/// The settings that a server sends are those that a client without recipe displays
/// hears of from then on: they are kept in the book, whose packets all carry them in
/// the form in which they came.
pub proof fn settings_are_kept(rows: Seq<Row>, book: Book, settings: Seq<bool>, rest: Seq<u8>)
    requires
        settings.len() == recipe_legacy::RECIPE_BOOK_SETTINGS,
    ensures
        legacy_settings(rows, book, recipe_legacy::enc_settings(settings) + rest) == (After {
            rows,
            book: Book { settings, ..book },
            fate: Ok((Fate::Dropped, rest)),
        }),
{
    lemma_settings_read_back(seq![], settings, rest);
    assert(Seq::<bool>::empty() + settings =~= settings);
}

} // verus!
