//! The recipe book for clients that know recipe displays.
//!
//! Displays and the stacks inside them are carried over to the client's tables. A
//! display whose layout is not known makes the packet be refused: what it holds
//! cannot be read past.
use vstd::prelude::*;
use crate::connection::UserConnection;
use crate::item;
use crate::item::StructuredItemRewriter;
use crate::item_backup;
use crate::item_backup::ComponentHash;
use crate::item_backup::Row;
use crate::mapping;
use crate::mapping::IdMapping;
use crate::shape;
use crate::shape::Shape;
use crate::target::Target;
use crate::types;
use crate::types::Item;
use crate::types::Stack;
use crate::types::WritingError;
use crate::version;
use crate::wire;
use crate::wire::TranslateError;

verus! {

pub const MAX_RECIPE_ENTRIES: i32 = 16_384;

pub const MAX_RECIPE_LIST: i32 = 4_096;

pub const SLOT_DISPLAY_EMPTY: i32 = 0;

pub const SLOT_DISPLAY_ANY_FUEL: i32 = 1;

pub const SLOT_DISPLAY_WITH_ANY_POTION: i32 = 2;

pub const SLOT_DISPLAY_ONLY_WITH_COMPONENT: i32 = 3;

pub const SLOT_DISPLAY_ITEM: i32 = 4;

pub const SLOT_DISPLAY_ITEM_STACK: i32 = 5;

pub const SLOT_DISPLAY_TAG: i32 = 6;

pub const SLOT_DISPLAY_DYED: i32 = 7;

pub const SLOT_DISPLAY_SMITHING_TRIM: i32 = 8;

pub const SLOT_DISPLAY_WITH_REMAINDER: i32 = 9;

pub const SLOT_DISPLAY_COMPOSITE: i32 = 10;

/// What a step of a translation does: the bytes that it writes and, where it succeeds,
/// what stands behind the bytes that it read.
pub type Part = (Seq<u8>, Result<Seq<u8>, TranslateError>);

/// What a step of a translation leaves: the connection's backups, and what it does.
pub type Written = (Seq<Row>, Part);

/// A step that is refused before anything is written.
pub open spec fn failed(error: TranslateError) -> Part {
    (seq![], Err(error))
}

/// A step that comes after `head` was written.
pub open spec fn after(head: Seq<u8>, part: Part) -> Part {
    (head + part.0, part.1)
}

/// As `after`, with the connection's backups.
pub open spec fn behind(head: Seq<u8>, step: Written) -> Written {
    (step.0, after(head, step.1))
}

/// Whether a function ended as was wanted: behind the bytes it read, or with the error.
pub open spec fn ended(res: Result<(), TranslateError>, after: Seq<u8>, wanted: Result<Seq<u8>, TranslateError>) -> bool {
    match wanted {
        Ok(rest) => res is Ok && after == rest,
        Err(error) => res is Err && res->Err_0 == error,
    }
}

/// Whether a translating function did what was wanted, in its output also where it was
/// refused.
pub open spec fn did(
    res: Result<(), TranslateError>,
    before: (UserConnection, Seq<u8>),
    after: (UserConnection, Seq<u8>, Seq<u8>),
    wanted: Written,
) -> bool {
    &&& after.0.backups@ == wanted.0
    &&& item_backup::same_but_backups(after.0, before.0)
    &&& after.1 == before.1 + wanted.1.0
    &&& ended(res, after.2, wanted.1.1)
}

pub proof fn lemma_joined(before: Seq<u8>, head: Seq<u8>, bytes: Seq<u8>)
    ensures
        before + head + bytes == before + (head + bytes),
{
    assert(before + head + bytes =~= before + (head + bytes));
}

pub proof fn lemma_nothing(bytes: Seq<u8>)
    ensures
        bytes + Seq::<u8>::empty() == bytes,
        Seq::<u8>::empty() + bytes == bytes,
{
    assert(bytes + Seq::<u8>::empty() =~= bytes);
    assert(Seq::<u8>::empty() + bytes =~= bytes);
}

/// Bytes where they are to be written.
pub open spec fn shown_bytes(emit: bool, bytes: Seq<u8>) -> Seq<u8> {
    if emit {
        bytes
    } else {
        seq![]
    }
}

/// A table's id for an id, or the id itself.
pub open spec fn mapped_or_same(slots: Seq<Option<u32>>, id: i32) -> i32 {
    match mapping::mapped(slots, id) {
        Some(mapped) => mapped,
        None => id,
    }
}

pub fn mapped_id_or_identity(table: &IdMapping, id: i32) -> (res: i32)
    ensures
        res == mapped_or_same(table@, id),
{
    match table.map_id(id) {
        Some(mapped) => mapped,
        None => id,
    }
}

/// The client's kind of display; the empty one where it has none.
pub open spec fn display_type(kind: i32, to: &Target) -> i32 {
    match mapping::mapped(to.ids.slot_displays@, kind) {
        Some(mapped) => mapped,
        None => 0,
    }
}

fn map_display_type(kind: i32, to: &Target) -> (res: i32)
    ensures
        res == display_type(kind, to),
{
    match to.ids.slot_displays.map_id(kind) {
        Some(mapped) => mapped,
        None => 0,
    }
}

/// A trim pattern: its asset, its name, whether it is a decal.
#[verifier::allow_in_spec]
pub fn pattern_shape() -> Shape
    returns
        (shape::three(Shape::Str, Shape::Nbt, Shape::Bool)),
{
    shape::three(Shape::Str, Shape::Nbt, Shape::Bool)
}

/// How many displays stand inside one of the given kind.
pub open spec fn inner_displays(kind: i32) -> Option<nat> {
    if kind == SLOT_DISPLAY_WITH_ANY_POTION || kind == SLOT_DISPLAY_ONLY_WITH_COMPONENT {
        Some(1)
    } else if kind == SLOT_DISPLAY_DYED || kind == SLOT_DISPLAY_SMITHING_TRIM || kind
        == SLOT_DISPLAY_WITH_REMAINDER {
        Some(2)
    } else {
        None
    }
}

/// What stands behind the displays inside one of the given kind; nothing is
/// written without `emit`.
pub open spec fn display_tail(kind: i32, s: Seq<u8>, emit: bool, to: &Target) -> Part {
    if kind == SLOT_DISPLAY_ONLY_WITH_COMPONENT {
        match wire::take_var_int(s) {
            Some((component, rest)) => (
                shown_bytes(
                    emit,
                    wire::enc_var_int(
                        match mapping::mapped(to.ids.data_component_type@, component) {
                            Some(mapped) => mapped,
                            None => 0,
                        },
                    ),
                ),
                Ok(rest),
            ),
            None => failed(TranslateError::Malformed),
        }
    } else if kind == SLOT_DISPLAY_SMITHING_TRIM {
        match shape::recode(pattern_shape(), s, to.cat, version::V_26_3) {
            Some((bytes, rest)) => (shown_bytes(emit, bytes), Ok(rest)),
            None => failed(TranslateError::Malformed),
        }
    } else {
        (seq![], Ok(s))
    }
}

/// A display of an item, with its kind.
pub open spec fn item_display(s: Seq<u8>, emit: bool, to: &Target) -> Part {
    let kind = display_type(SLOT_DISPLAY_ITEM, to);
    match wire::take_var_int(s) {
        Some((item, rest)) => (
            shown_bytes(emit, wire::enc_var_int(kind)) + shown_bytes(
                emit && kind != 0,
                wire::enc_var_int(mapped_or_same(to.ids.items@, item)),
            ),
            Ok(rest),
        ),
        None => failed(TranslateError::Malformed),
    }
}

/// A display of a tag: its name, or a stand-in where the items are listed.
pub open spec fn tag_display(s: Seq<u8>, emit: bool) -> Part {
    match wire::take_var_int(s) {
        Some((selector, t)) => if selector == 0 {
            match wire::take_str(t) {
                Some((tag, rest)) => (shown_bytes(emit, wire::enc_str(tag)), Ok(rest)),
                None => failed(TranslateError::Malformed),
            }
        } else if selector < 0 || selector - 1 > MAX_RECIPE_LIST {
            failed(TranslateError::ItemSet)
        } else {
            match shape::drop_var_ints((selector - 1) as nat, t) {
                Some(rest) => (shown_bytes(emit, wire::enc_str(wire::key("planks"))), Ok(rest)),
                None => failed(TranslateError::Malformed),
            }
        },
        None => failed(TranslateError::Malformed),
    }
}

/// The bytes of a stack inside a display.
pub open spec fn enc_display_stack(stack: Stack, to: &Target) -> Option<Seq<u8>> {
    if to.version >= version::V_26_1 {
        types::enc_template(stack)
    } else {
        types::enc_item(stack, to.version, false)
    }
}

/// A display of a stack, with its kind. It becomes the empty one where the client
/// does not have the item.
pub open spec fn stack_display(rows: Seq<Row>, s: Seq<u8>, emit: bool, hashes: Seq<ComponentHash>, to: &Target) -> Written {
    match types::take_template(s, to.cat) {
        Some((native, rest)) => {
            let mapped = item::stack_to_version(native, to);
            let kind = if mapped is Empty {
                0i32
            } else {
                display_type(SLOT_DISPLAY_ITEM_STACK, to)
            };
            if !emit {
                (rows, (seq![], Ok(rest)))
            } else if kind == 0 {
                (rows, (wire::enc_var_int(0), Ok(rest)))
            } else {
                let (kept, shown) = item_backup::backed_up(rows, native, mapped, hashes, to);
                (
                    kept,
                    match enc_display_stack(shown, to) {
                        Some(bytes) => (wire::enc_var_int(kind) + bytes, Ok(rest)),
                        None => (wire::enc_var_int(kind), Err(TranslateError::Unwritable)),
                    },
                )
            }
        },
        None => (rows, failed(TranslateError::Malformed)),
    }
}

/// A display for the client. Without `emit` it is read and nothing is written, as
/// for the displays inside one that the client does not have.
pub open spec fn display_written(
    rows: Seq<Row>,
    s: Seq<u8>,
    emit: bool,
    hashes: Seq<ComponentHash>,
    to: &Target,
) -> Written
    decreases s.len(), 0int, 0nat,
{
    match wire::take_var_int(s) {
        None => (rows, failed(TranslateError::Malformed)),
        Some((kind, t)) => {
            let shown = display_type(kind, to);
            let inner = emit && shown != 0;
            let head = shown_bytes(emit, wire::enc_var_int(shown));
            proof {
                types::lemma_var_int_shorter(s);
            }
            if kind == SLOT_DISPLAY_EMPTY || kind == SLOT_DISPLAY_ANY_FUEL {
                (rows, (head, Ok(t)))
            } else if kind == SLOT_DISPLAY_ITEM {
                (rows, item_display(t, emit, to))
            } else if kind == SLOT_DISPLAY_ITEM_STACK {
                stack_display(rows, t, emit, hashes, to)
            } else if kind == SLOT_DISPLAY_TAG {
                (rows, after(head, tag_display(t, inner)))
            } else if kind == SLOT_DISPLAY_COMPOSITE {
                behind(head, display_list(rows, t, inner, hashes, to))
            } else if let Some(n) = inner_displays(kind) {
                behind(head, inner_written(kind, n, rows, t, inner, hashes, to))
            } else {
                (rows, failed(TranslateError::UnknownDisplay))
            }
        },
    }
}

/// The displays inside one of the given kind, with what stands behind them.
pub open spec fn inner_written(
    kind: i32,
    n: nat,
    rows: Seq<Row>,
    s: Seq<u8>,
    emit: bool,
    hashes: Seq<ComponentHash>,
    to: &Target,
) -> Written
    decreases s.len(), 2int, 0nat,
{
    match displays(n, rows, s, emit, hashes, to) {
        (kept, (bytes, Ok(rest))) => (kept, after(bytes, display_tail(kind, rest, emit, to))),
        step => step,
    }
}

/// A counted list of displays; without `emit` the count is not written either.
pub open spec fn display_list(
    rows: Seq<Row>,
    s: Seq<u8>,
    emit: bool,
    hashes: Seq<ComponentHash>,
    to: &Target,
) -> Written
    decreases s.len(), 2int, 0nat,
{
    match wire::take_var_int(s) {
        Some((n, t)) => if n < 0 || n > MAX_RECIPE_LIST {
            (rows, failed(TranslateError::Count))
        } else {
            proof {
                types::lemma_var_int_shorter(s);
            }
            behind(
                shown_bytes(emit, wire::enc_var_int(n)),
                displays(n as nat, rows, t, emit, hashes, to),
            )
        },
        None => (rows, failed(TranslateError::Malformed)),
    }
}

/// `n` displays for the client. Each is at least one byte long.
pub open spec fn displays(
    n: nat,
    rows: Seq<Row>,
    s: Seq<u8>,
    emit: bool,
    hashes: Seq<ComponentHash>,
    to: &Target,
) -> Written
    decreases s.len(), 1int, n,
{
    if n == 0 {
        (rows, (seq![], Ok(s)))
    } else {
        match display_written(rows, s, emit, hashes, to) {
            (kept, (bytes, Ok(rest))) => if rest.len() < s.len() {
                behind(bytes, displays((n - 1) as nat, kept, rest, emit, hashes, to))
            } else {
                (kept, (bytes, Err(TranslateError::Malformed)))
            },
            step => step,
        }
    }
}

fn write_item_display(r: &mut &[u8], out: &mut Vec<u8>, emit: bool, to: &Target) -> (res: Result<(), TranslateError>)
    ensures
        final(out)@ == old(out)@ + item_display(old(r)@, emit, to).0,
        ended(res, final(r)@, item_display(old(r)@, emit, to).1),
{
    let ghost wanted = item_display(r@, emit, to);
    proof {
        lemma_nothing(out@);
    }
    let item: i32 = wire::or_malformed(wire::get_var_int(r))?;
    let kind: i32 = map_display_type(SLOT_DISPLAY_ITEM, to);
    if emit {
        wire::write_var_int(out, kind);
        if kind != 0 {
            wire::write_var_int(out, mapped_id_or_identity(&to.ids.items, item));
        }
    }
    assert(out@ =~= old(out)@ + wanted.0);
    Ok(())
}

fn write_tag_display(r: &mut &[u8], out: &mut Vec<u8>, emit: bool) -> (res: Result<(), TranslateError>)
    ensures
        final(out)@ == old(out)@ + tag_display(old(r)@, emit).0,
        ended(res, final(r)@, tag_display(old(r)@, emit).1),
{
    proof {
        lemma_nothing(out@);
    }
    let selector: i32 = wire::or_malformed(wire::get_var_int(r))?;
    if selector == 0 {
        let tag: &[u8] = wire::or_malformed(wire::get_str(r))?;
        if emit {
            wire::write_str(out, tag);
        }
    } else {
        if selector < 0 || selector - 1 > MAX_RECIPE_LIST {
            return Err(TranslateError::ItemSet);
        }
        wire::or_malformed(shape::skip_var_ints((selector - 1) as u32, r))?;
        if emit {
            wire::write_str(out, "planks".as_bytes());
        }
    }
    Ok(())
}

fn write_display_stack(out: &mut Vec<u8>, item: &Item, to: &Target) -> (res: Result<(), WritingError>)
    ensures
        match enc_display_stack(item@, to) {
            Some(bytes) => res is Ok && final(out)@ == old(out)@ + bytes,
            None => res is Err && final(out)@ == old(out)@,
        },
{
    if to.version >= version::V_26_1 {
        types::write_template(out, item)
    } else {
        types::write_item(out, item, to.version, false)
    }
}

#[verifier::spinoff_prover]
#[verifier::rlimit(60)]
fn write_stack_display(
    connection: &mut UserConnection,
    r: &mut &[u8],
    out: &mut Vec<u8>,
    emit: bool,
    hashes: &Vec<ComponentHash>,
    to: &Target,
) -> (res: Result<(), TranslateError>)
    ensures
        did(
            res,
            (*old(connection), old(out)@),
            (*final(connection), final(out)@, final(r)@),
            stack_display(old(connection).backups@, old(r)@, emit, hashes@, to),
        ),
{
    let ghost before = out@;
    proof {
        lemma_nothing(before);
    }
    let native: Item = wire::or_malformed(types::get_template(r, to.cat))?;
    let mapped: Item = StructuredItemRewriter::to_version(&native, to);
    if !emit {
        return Ok(());
    }
    let kind: i32 = if mapped.is_empty() {
        0
    } else {
        map_display_type(SLOT_DISPLAY_ITEM_STACK, to)
    };
    wire::write_var_int(out, kind);
    if kind == 0 {
        return Ok(());
    }
    let shown: Item = item_backup::backup_clientbound_item(connection, &native, mapped, hashes, to);
    match write_display_stack(out, &shown, to) {
        Ok(()) => {
            proof {
                lemma_joined(before, wire::enc_var_int(kind), enc_display_stack(shown@, to).unwrap());
            }
            Ok(())
        },
        Err(_) => Err(TranslateError::Unwritable),
    }
}

fn write_display_tail(kind: i32, r: &mut &[u8], out: &mut Vec<u8>, emit: bool, to: &Target) -> (res: Result<
    (),
    TranslateError,
>)
    ensures
        final(out)@ == old(out)@ + display_tail(kind, old(r)@, emit, to).0,
        ended(res, final(r)@, display_tail(kind, old(r)@, emit, to).1),
{
    proof {
        lemma_nothing(out@);
    }
    if kind == SLOT_DISPLAY_ONLY_WITH_COMPONENT {
        let component: i32 = wire::or_malformed(wire::get_var_int(r))?;
        if emit {
            let mapped: i32 = match to.ids.data_component_type.map_id(component) {
                Some(mapped) => mapped,
                None => 0,
            };
            wire::write_var_int(out, mapped);
        }
    } else if kind == SLOT_DISPLAY_SMITHING_TRIM {
        let mut pattern: Vec<u8> = Vec::new();
        proof {
            if let Some((bytes, rest)) = shape::recode(pattern_shape(), r@, to.cat, version::V_26_3) {
                lemma_nothing(bytes);
            }
        }
        wire::or_malformed(shape::rewrite(&pattern_shape(), r, &mut pattern, to.cat, version::V_26_3))?;
        if emit {
            wire::write_bytes(out, pattern.as_slice());
        }
    }
    Ok(())
}

/// Translates a display. Without `emit` it is read and nothing is written, whether or
/// not it can be read.
#[verifier::spinoff_prover]
#[verifier::rlimit(60)]
pub fn slot_display(
    connection: &mut UserConnection,
    r: &mut &[u8],
    out: &mut Vec<u8>,
    emit: bool,
    hashes: &Vec<ComponentHash>,
    to: &Target,
) -> (res: Result<(), TranslateError>)
    ensures
        did(
            res,
            (*old(connection), old(out)@),
            (*final(connection), final(out)@, final(r)@),
            display_written(old(connection).backups@, old(r)@, emit, hashes@, to),
        ),
        !emit ==> final(out)@ == old(out)@,
    decreases old(r)@.len(), 0int, 0nat,
{
    let ghost before = out@;
    proof {
        types::lemma_var_int_shorter(r@);
        lemma_nothing(before);
        a_dropped_display_is_read_and_leaves_nothing(connection.backups@, connection.backups@, r@, emit, hashes@, to);
        if !emit {
            lemma_empty(display_written(connection.backups@, r@, emit, hashes@, to).1.0);
        }
    }
    let kind: i32 = wire::or_malformed(wire::get_var_int(r))?;
    if kind == SLOT_DISPLAY_ITEM_STACK {
        return write_stack_display(connection, r, out, emit, hashes, to);
    }
    if kind == SLOT_DISPLAY_ITEM {
        return write_item_display(r, out, emit, to);
    }
    let n: u32 = count_inner(kind);
    if n == 0 && kind != SLOT_DISPLAY_EMPTY && kind != SLOT_DISPLAY_ANY_FUEL && kind != SLOT_DISPLAY_TAG && kind
        != SLOT_DISPLAY_COMPOSITE {
        return Err(TranslateError::UnknownDisplay);
    }
    let shown: i32 = map_display_type(kind, to);
    let inner: bool = emit && shown != 0;
    let ghost head = shown_bytes(emit, wire::enc_var_int(shown));
    if emit {
        wire::write_var_int(out, shown);
    }
    assert(out@ == before + head);
    if kind == SLOT_DISPLAY_EMPTY || kind == SLOT_DISPLAY_ANY_FUEL {
        Ok(())
    } else if kind == SLOT_DISPLAY_TAG {
        proof {
            lemma_joined(before, head, tag_display(r@, inner).0);
        }
        write_tag_display(r, out, inner)
    } else if kind == SLOT_DISPLAY_COMPOSITE {
        proof {
            lemma_joined(before, head, display_list(connection.backups@, r@, inner, hashes@, to).1.0);
        }
        write_display_list(connection, r, out, inner, hashes, to)
    } else {
        proof {
            lemma_joined(before, head, inner_written(kind, n as nat, connection.backups@, r@, inner, hashes@, to).1.0);
        }
        write_inner(kind, n, connection, r, out, inner, hashes, to)
    }
}

proof fn lemma_empty(bytes: Seq<u8>)
    requires
        bytes.len() == 0,
    ensures
        bytes == Seq::<u8>::empty(),
{
    assert(bytes =~= Seq::<u8>::empty());
}

pub fn count_inner(kind: i32) -> (res: u32)
    ensures
        match inner_displays(kind) {
            Some(n) => res == n,
            None => res == 0,
        },
{
    if kind == SLOT_DISPLAY_WITH_ANY_POTION || kind == SLOT_DISPLAY_ONLY_WITH_COMPONENT {
        1
    } else if kind == SLOT_DISPLAY_DYED || kind == SLOT_DISPLAY_SMITHING_TRIM || kind
        == SLOT_DISPLAY_WITH_REMAINDER {
        2
    } else {
        0
    }
}

fn write_inner(
    kind: i32,
    n: u32,
    connection: &mut UserConnection,
    r: &mut &[u8],
    out: &mut Vec<u8>,
    emit: bool,
    hashes: &Vec<ComponentHash>,
    to: &Target,
) -> (res: Result<(), TranslateError>)
    ensures
        did(
            res,
            (*old(connection), old(out)@),
            (*final(connection), final(out)@, final(r)@),
            inner_written(kind, n as nat, old(connection).backups@, old(r)@, emit, hashes@, to),
        ),
    decreases old(r)@.len(), 2int, 0nat,
{
    let ghost before = out@;
    let ghost step = displays(n as nat, connection.backups@, r@, emit, hashes@, to);
    write_displays(n, connection, r, out, emit, hashes, to)?;
    proof {
        lemma_joined(before, step.1.0, display_tail(kind, r@, emit, to).0);
    }
    write_display_tail(kind, r, out, emit, to)
}

fn write_display_list(
    connection: &mut UserConnection,
    r: &mut &[u8],
    out: &mut Vec<u8>,
    emit: bool,
    hashes: &Vec<ComponentHash>,
    to: &Target,
) -> (res: Result<(), TranslateError>)
    ensures
        did(
            res,
            (*old(connection), old(out)@),
            (*final(connection), final(out)@, final(r)@),
            display_list(old(connection).backups@, old(r)@, emit, hashes@, to),
        ),
    decreases old(r)@.len(), 2int, 0nat,
{
    let ghost before = out@;
    proof {
        types::lemma_var_int_shorter(r@);
        lemma_nothing(before);
    }
    let n: i32 = wire::or_malformed(wire::get_var_int(r))?;
    if n < 0 || n > MAX_RECIPE_LIST {
        return Err(TranslateError::Count);
    }
    let ghost head = shown_bytes(emit, wire::enc_var_int(n));
    if emit {
        wire::write_var_int(out, n);
    }
    assert(out@ == before + head);
    proof {
        lemma_joined(before, head, displays(n as nat, connection.backups@, r@, emit, hashes@, to).1.0);
    }
    write_displays(n as u32, connection, r, out, emit, hashes, to)
}

#[verifier::loop_isolation(false)]
#[verifier::spinoff_prover]
#[verifier::rlimit(80)]
fn write_displays(
    n: u32,
    connection: &mut UserConnection,
    r: &mut &[u8],
    out: &mut Vec<u8>,
    emit: bool,
    hashes: &Vec<ComponentHash>,
    to: &Target,
) -> (res: Result<(), TranslateError>)
    ensures
        did(
            res,
            (*old(connection), old(out)@),
            (*final(connection), final(out)@, final(r)@),
            displays(n as nat, old(connection).backups@, old(r)@, emit, hashes@, to),
        ),
    decreases old(r)@.len(), 1int, n as nat,
{
    let ghost before = out@;
    let ghost start = r@;
    let ghost wanted = displays(n as nat, connection.backups@, r@, emit, hashes@, to);
    let ghost mut written: Seq<u8> = seq![];
    let mut left: u32 = n;
    proof {
        lemma_nothing(before);
        lemma_nothing(wanted.1.0);
    }
    while left > 0
        invariant
            left <= n,
            r@.len() <= start.len(),
            left < n ==> r@.len() < start.len(),
            out@ == before + written,
            item_backup::same_but_backups(*connection, *old(connection)),
            wanted == behind(written, displays(left as nat, connection.backups@, r@, emit, hashes@, to)),
        decreases left,
    {
        let length: usize = r.len();
        let ghost step = display_written(connection.backups@, r@, emit, hashes@, to);
        proof {
            lemma_joined(before, written, step.1.0);
        }
        slot_display(connection, r, out, emit, hashes, to)?;
        if r.len() >= length {
            return Err(TranslateError::Malformed);
        }
        left = left - 1;
        proof {
            let more = displays(left as nat, connection.backups@, r@, emit, hashes@, to);
            lemma_joined(written, step.1.0, more.1.0);
            written = written + step.1.0;
        }
    }
    proof {
        lemma_nothing(written);
    }
    Ok(())
}

// --- displays that the client does not have ------------------------------------------------------------

/// Whether a step writes nothing and keeps nothing back, and reads as far as another one
/// does, or is refused for the same reason. Only where a stack could not be written for
/// the client may it go further.
pub open spec fn is_dropped(rows: Seq<Row>, quiet: Written, loud: Written) -> bool {
    &&& quiet.0 == rows
    &&& quiet.1.0.len() == 0
    &&& quiet.1.1 == loud.1.1 || loud.1.1 == Err::<Seq<u8>, TranslateError>(TranslateError::Unwritable)
}

/// A display that is not to be shown writes nothing and keeps nothing back, whether or
/// not it can be read. It is read just as far as one that is shown, and is refused for the
/// same reasons.
pub proof fn a_dropped_display_is_read_and_leaves_nothing(
    rows: Seq<Row>,
    other_rows: Seq<Row>,
    s: Seq<u8>,
    emit: bool,
    hashes: Seq<ComponentHash>,
    to: &Target,
)
    ensures
        is_dropped(rows, display_written(rows, s, false, hashes, to), display_written(other_rows, s, emit, hashes, to)),
    decreases s.len(), 0int, 0nat,
{
    types::lemma_var_int_shorter(s);
    if let Some((kind, t)) = wire::take_var_int(s) {
        let inner = emit && display_type(kind, to) != 0;
        if kind == SLOT_DISPLAY_COMPOSITE {
            lemma_dropped_list(rows, other_rows, t, inner, hashes, to);
        } else if let Some(n) = inner_displays(kind) {
            lemma_dropped_displays(n, rows, other_rows, t, inner, hashes, to);
        }
    }
}

proof fn lemma_dropped_list(
    rows: Seq<Row>,
    other_rows: Seq<Row>,
    s: Seq<u8>,
    emit: bool,
    hashes: Seq<ComponentHash>,
    to: &Target,
)
    ensures
        is_dropped(rows, display_list(rows, s, false, hashes, to), display_list(other_rows, s, emit, hashes, to)),
    decreases s.len(), 2int, 0nat,
{
    types::lemma_var_int_shorter(s);
    if let Some((n, t)) = wire::take_var_int(s) {
        if 0 <= n <= MAX_RECIPE_LIST {
            lemma_dropped_displays(n as nat, rows, other_rows, t, emit, hashes, to);
        }
    }
}

proof fn lemma_dropped_displays(
    n: nat,
    rows: Seq<Row>,
    other_rows: Seq<Row>,
    s: Seq<u8>,
    emit: bool,
    hashes: Seq<ComponentHash>,
    to: &Target,
)
    ensures
        is_dropped(rows, displays(n, rows, s, false, hashes, to), displays(n, other_rows, s, emit, hashes, to)),
    decreases s.len(), 1int, n,
{
    if n > 0 {
        a_dropped_display_is_read_and_leaves_nothing(rows, other_rows, s, emit, hashes, to);
        let quiet = display_written(rows, s, false, hashes, to);
        let loud = display_written(other_rows, s, emit, hashes, to);
        if let Ok(rest) = quiet.1.1 {
            if rest.len() < s.len() {
                lemma_dropped_displays((n - 1) as nat, rows, loud.0, rest, emit, hashes, to);
            }
        }
    }
}

// --- recipes ---------------------------------------------------------------------------------------------

/// What a recipe display is made of: whether it has its sizes and a list of
/// displays in front, how many displays follow, and whether it takes time.
pub struct RecipeLayout {
    pub sized: bool,
    pub listed: bool,
    pub displays: u32,
    pub timed: bool,
}

/// The layout of a recipe display: shapeless, shaped, furnace, stonecutter and
/// smithing.
pub open spec fn layout_of(kind: i32) -> Option<RecipeLayout> {
    if kind == 0 {
        Some(RecipeLayout { sized: false, listed: true, displays: 2, timed: false })
    } else if kind == 1 {
        Some(RecipeLayout { sized: true, listed: true, displays: 2, timed: false })
    } else if kind == 2 {
        Some(RecipeLayout { sized: false, listed: false, displays: 4, timed: true })
    } else if kind == 3 {
        Some(RecipeLayout { sized: false, listed: false, displays: 3, timed: false })
    } else if kind == 4 {
        Some(RecipeLayout { sized: false, listed: false, displays: 5, timed: false })
    } else {
        None
    }
}

fn recipe_layout(kind: i32) -> (res: Option<RecipeLayout>)
    ensures
        res == layout_of(kind),
{
    match kind {
        0 => Some(RecipeLayout { sized: false, listed: true, displays: 2, timed: false }),
        1 => Some(RecipeLayout { sized: true, listed: true, displays: 2, timed: false }),
        2 => Some(RecipeLayout { sized: false, listed: false, displays: 4, timed: true }),
        3 => Some(RecipeLayout { sized: false, listed: false, displays: 3, timed: false }),
        4 => Some(RecipeLayout { sized: false, listed: false, displays: 5, timed: false }),
        _ => None,
    }
}

/// A VarInt, passed on.
pub open spec fn number_passed(s: Seq<u8>) -> Part {
    match wire::take_var_int(s) {
        Some((n, rest)) => (wire::enc_var_int(n), Ok(rest)),
        None => failed(TranslateError::Malformed),
    }
}

/// The sizes of a recipe that has them.
pub open spec fn sizes_passed(sized: bool, s: Seq<u8>) -> Part {
    if !sized {
        (seq![], Ok(s))
    } else {
        match number_passed(s) {
            (width, Ok(rest)) => after(width, number_passed(rest)),
            part => part,
        }
    }
}

/// The end of a recipe that takes time and gives experience.
pub open spec fn timing_passed(timed: bool, s: Seq<u8>) -> Part {
    if !timed {
        (seq![], Ok(s))
    } else {
        match number_passed(s) {
            (duration, Ok(t)) => after(
                duration,
                match wire::take_u32(t) {
                    Some((experience, rest)) => (wire::enc_u32(experience), Ok(rest)),
                    None => failed(TranslateError::Malformed),
                },
            ),
            part => part,
        }
    }
}

pub open spec fn listed_displays(
    listed: bool,
    rows: Seq<Row>,
    s: Seq<u8>,
    hashes: Seq<ComponentHash>,
    to: &Target,
) -> Written {
    if listed {
        display_list(rows, s, true, hashes, to)
    } else {
        (rows, (seq![], Ok(s)))
    }
}

/// The displays of a recipe that are not listed, and its end.
pub open spec fn recipe_end(
    layout: RecipeLayout,
    rows: Seq<Row>,
    s: Seq<u8>,
    hashes: Seq<ComponentHash>,
    to: &Target,
) -> Written {
    match displays(layout.displays as nat, rows, s, true, hashes, to) {
        (kept, (bytes, Ok(rest))) => (kept, after(bytes, timing_passed(layout.timed, rest))),
        step => step,
    }
}

/// A recipe behind its sizes.
pub open spec fn recipe_parts(
    layout: RecipeLayout,
    rows: Seq<Row>,
    s: Seq<u8>,
    hashes: Seq<ComponentHash>,
    to: &Target,
) -> Written {
    match listed_displays(layout.listed, rows, s, hashes, to) {
        (kept, (bytes, Ok(rest))) => behind(bytes, recipe_end(layout, kept, rest, hashes, to)),
        step => step,
    }
}

/// A recipe display of a layout.
pub open spec fn recipe_body(
    layout: RecipeLayout,
    rows: Seq<Row>,
    s: Seq<u8>,
    hashes: Seq<ComponentHash>,
    to: &Target,
) -> Written {
    match sizes_passed(layout.sized, s) {
        (bytes, Ok(rest)) => behind(bytes, recipe_parts(layout, rows, rest, hashes, to)),
        part => (rows, part),
    }
}

/// A recipe display for the client.
pub open spec fn recipe_written(rows: Seq<Row>, s: Seq<u8>, hashes: Seq<ComponentHash>, to: &Target) -> Written {
    match wire::take_var_int(s) {
        Some((kind, t)) => behind(
            wire::enc_var_int(kind),
            match layout_of(kind) {
                Some(layout) => recipe_body(layout, rows, t, hashes, to),
                None => (rows, failed(TranslateError::UnknownRecipe)),
            },
        ),
        None => (rows, failed(TranslateError::Malformed)),
    }
}

fn pass_number(r: &mut &[u8], out: &mut Vec<u8>) -> (res: Result<(), TranslateError>)
    ensures
        final(out)@ == old(out)@ + number_passed(old(r)@).0,
        ended(res, final(r)@, number_passed(old(r)@).1),
{
    proof {
        lemma_nothing(out@);
    }
    let n: i32 = wire::or_malformed(wire::get_var_int(r))?;
    wire::write_var_int(out, n);
    Ok(())
}

fn pass_sizes(sized: bool, r: &mut &[u8], out: &mut Vec<u8>) -> (res: Result<(), TranslateError>)
    ensures
        final(out)@ == old(out)@ + sizes_passed(sized, old(r)@).0,
        ended(res, final(r)@, sizes_passed(sized, old(r)@).1),
{
    let ghost before = out@;
    proof {
        lemma_nothing(before);
    }
    if !sized {
        return Ok(());
    }
    let ghost width = number_passed(r@);
    pass_number(r, out)?;
    proof {
        lemma_joined(before, width.0, number_passed(r@).0);
    }
    pass_number(r, out)
}

fn pass_timing(timed: bool, r: &mut &[u8], out: &mut Vec<u8>) -> (res: Result<(), TranslateError>)
    ensures
        final(out)@ == old(out)@ + timing_passed(timed, old(r)@).0,
        ended(res, final(r)@, timing_passed(timed, old(r)@).1),
{
    let ghost before = out@;
    proof {
        lemma_nothing(before);
    }
    if !timed {
        return Ok(());
    }
    let ghost duration = number_passed(r@);
    pass_number(r, out)?;
    proof {
        lemma_nothing(duration.0);
    }
    let experience: u32 = wire::or_malformed(wire::get_u32(r))?;
    wire::write_u32(out, experience);
    proof {
        lemma_joined(before, duration.0, wire::enc_u32(experience));
    }
    Ok(())
}

fn write_recipe_end(
    layout: &RecipeLayout,
    connection: &mut UserConnection,
    r: &mut &[u8],
    out: &mut Vec<u8>,
    hashes: &Vec<ComponentHash>,
    to: &Target,
) -> (res: Result<(), TranslateError>)
    ensures
        did(
            res,
            (*old(connection), old(out)@),
            (*final(connection), final(out)@, final(r)@),
            recipe_end(*layout, old(connection).backups@, old(r)@, hashes@, to),
        ),
{
    let ghost before = out@;
    let ghost step = displays(layout.displays as nat, connection.backups@, r@, true, hashes@, to);
    write_displays(layout.displays, connection, r, out, true, hashes, to)?;
    proof {
        lemma_joined(before, step.1.0, timing_passed(layout.timed, r@).0);
    }
    pass_timing(layout.timed, r, out)
}

fn write_recipe_parts(
    layout: &RecipeLayout,
    connection: &mut UserConnection,
    r: &mut &[u8],
    out: &mut Vec<u8>,
    hashes: &Vec<ComponentHash>,
    to: &Target,
) -> (res: Result<(), TranslateError>)
    ensures
        did(
            res,
            (*old(connection), old(out)@),
            (*final(connection), final(out)@, final(r)@),
            recipe_parts(*layout, old(connection).backups@, old(r)@, hashes@, to),
        ),
{
    let ghost before = out@;
    let ghost step = listed_displays(layout.listed, connection.backups@, r@, hashes@, to);
    proof {
        lemma_nothing(before);
    }
    if layout.listed {
        write_display_list(connection, r, out, true, hashes, to)?;
    }
    assert(out@ == before + step.1.0);
    proof {
        lemma_joined(before, step.1.0, recipe_end(*layout, connection.backups@, r@, hashes@, to).1.0);
    }
    write_recipe_end(layout, connection, r, out, hashes, to)
}

fn write_recipe_body(
    layout: &RecipeLayout,
    connection: &mut UserConnection,
    r: &mut &[u8],
    out: &mut Vec<u8>,
    hashes: &Vec<ComponentHash>,
    to: &Target,
) -> (res: Result<(), TranslateError>)
    ensures
        did(
            res,
            (*old(connection), old(out)@),
            (*final(connection), final(out)@, final(r)@),
            recipe_body(*layout, old(connection).backups@, old(r)@, hashes@, to),
        ),
{
    let ghost before = out@;
    let ghost sizes = sizes_passed(layout.sized, r@);
    pass_sizes(layout.sized, r, out)?;
    proof {
        lemma_joined(before, sizes.0, recipe_parts(*layout, connection.backups@, r@, hashes@, to).1.0);
    }
    write_recipe_parts(layout, connection, r, out, hashes, to)
}

/// Translates a recipe display.
pub fn recipe_display(
    connection: &mut UserConnection,
    r: &mut &[u8],
    out: &mut Vec<u8>,
    hashes: &Vec<ComponentHash>,
    to: &Target,
) -> (res: Result<(), TranslateError>)
    ensures
        did(
            res,
            (*old(connection), old(out)@),
            (*final(connection), final(out)@, final(r)@),
            recipe_written(old(connection).backups@, old(r)@, hashes@, to),
        ),
{
    let ghost before = out@;
    proof {
        lemma_nothing(before);
    }
    let kind: i32 = wire::or_malformed(wire::get_var_int(r))?;
    wire::write_var_int(out, kind);
    match recipe_layout(kind) {
        Some(layout) => {
            proof {
                lemma_joined(
                    before,
                    wire::enc_var_int(kind),
                    recipe_body(layout, connection.backups@, r@, hashes@, to).1.0,
                );
            }
            write_recipe_body(&layout, connection, r, out, hashes, to)
        },
        None => {
            proof {
                lemma_nothing(wire::enc_var_int(kind));
            }
            Err(TranslateError::UnknownRecipe)
        },
    }
}

// --- items ------------------------------------------------------------------------------------------------

/// `n` items, carried over to the client.
pub open spec fn items_written(n: nat, s: Seq<u8>, slots: Seq<Option<u32>>) -> Part
    decreases n,
{
    if n == 0 {
        (seq![], Ok(s))
    } else {
        match wire::take_var_int(s) {
            Some((id, rest)) => after(
                wire::enc_var_int(mapped_or_same(slots, id)),
                items_written((n - 1) as nat, rest, slots),
            ),
            None => failed(TranslateError::Malformed),
        }
    }
}

/// A set of items: the name of a tag, or a list. Nothing of a list is written before all
/// of it is read.
pub open spec fn holder_set_written(s: Seq<u8>, slots: Seq<Option<u32>>) -> Part {
    match wire::take_var_int(s) {
        Some((selector, t)) => if selector == 0 {
            after(
                wire::enc_var_int(0),
                match wire::take_str(t) {
                    Some((tag, rest)) => (wire::enc_str(tag), Ok(rest)),
                    None => failed(TranslateError::Malformed),
                },
            )
        } else if selector < 0 || selector - 1 > MAX_RECIPE_LIST {
            failed(TranslateError::ItemSet)
        } else {
            match items_written((selector - 1) as nat, t, slots) {
                (bytes, Ok(rest)) => (wire::enc_var_int(selector) + bytes, Ok(rest)),
                (bytes, Err(error)) => failed(error),
            }
        },
        None => failed(TranslateError::Malformed),
    }
}

pub open spec fn holder_sets_written(n: nat, s: Seq<u8>, slots: Seq<Option<u32>>) -> Part
    decreases n,
{
    if n == 0 {
        (seq![], Ok(s))
    } else {
        match holder_set_written(s, slots) {
            (bytes, Ok(rest)) => after(bytes, holder_sets_written((n - 1) as nat, rest, slots)),
            part => part,
        }
    }
}

/// The counted sets of items that a recipe asks for.
pub open spec fn asked_written(s: Seq<u8>, slots: Seq<Option<u32>>) -> Part {
    match wire::take_var_int(s) {
        Some((n, t)) => if n < 0 || n > MAX_RECIPE_LIST {
            failed(TranslateError::Count)
        } else {
            after(wire::enc_var_int(n), holder_sets_written(n as nat, t, slots))
        },
        None => failed(TranslateError::Malformed),
    }
}

/// The ingredients that a recipe asks for, where it says so.
pub open spec fn requirements_written(s: Seq<u8>, slots: Seq<Option<u32>>) -> Part {
    match wire::take_bool(s) {
        Some((present, t)) => after(
            wire::enc_bool(present),
            if present {
                asked_written(t, slots)
            } else {
                (seq![], Ok(t))
            },
        ),
        None => failed(TranslateError::Malformed),
    }
}

#[verifier::loop_isolation(false)]
pub fn write_items(n: u32, r: &mut &[u8], out: &mut Vec<u8>, table: &IdMapping) -> (res: Result<(), TranslateError>)
    ensures
        final(out)@ == old(out)@ + items_written(n as nat, old(r)@, table@).0,
        ended(res, final(r)@, items_written(n as nat, old(r)@, table@).1),
{
    let ghost before = out@;
    let ghost wanted = items_written(n as nat, r@, table@);
    let ghost mut written: Seq<u8> = seq![];
    let mut left: u32 = n;
    proof {
        lemma_nothing(before);
        lemma_nothing(wanted.0);
    }
    while left > 0
        invariant
            out@ == before + written,
            wanted == after(written, items_written(left as nat, r@, table@)),
        decreases left,
    {
        proof {
            lemma_nothing(written);
        }
        let id: i32 = wire::or_malformed(wire::get_var_int(r))?;
        let mapped: i32 = mapped_id_or_identity(table, id);
        wire::write_var_int(out, mapped);
        left = left - 1;
        proof {
            let bytes = wire::enc_var_int(mapped);
            lemma_joined(before, written, bytes);
            lemma_joined(written, bytes, items_written(left as nat, r@, table@).0);
            written = written + bytes;
        }
    }
    proof {
        lemma_nothing(written);
    }
    Ok(())
}

/// Translates a set of items.
pub fn holder_set(r: &mut &[u8], out: &mut Vec<u8>, table: &IdMapping) -> (res: Result<(), TranslateError>)
    ensures
        final(out)@ == old(out)@ + holder_set_written(old(r)@, table@).0,
        ended(res, final(r)@, holder_set_written(old(r)@, table@).1),
        wire::take_var_int(old(r)@) matches Some((selector, _)) && (selector < 0 || selector > MAX_RECIPE_LIST + 1)
            ==> res == Err::<(), TranslateError>(TranslateError::ItemSet) && final(out)@ == old(out)@,
{
    let ghost before = out@;
    proof {
        lemma_nothing(before);
    }
    let selector: i32 = wire::or_malformed(wire::get_var_int(r))?;
    if selector == 0 {
        wire::write_var_int(out, 0);
        proof {
            lemma_nothing(wire::enc_var_int(0));
        }
        let tag: &[u8] = wire::or_malformed(wire::get_str(r))?;
        wire::write_str(out, tag);
        proof {
            lemma_joined(before, wire::enc_var_int(0), wire::enc_str(tag@));
        }
        return Ok(());
    }
    if selector < 0 || selector - 1 > MAX_RECIPE_LIST {
        return Err(TranslateError::ItemSet);
    }
    let mut items: Vec<u8> = Vec::new();
    proof {
        lemma_nothing(items_written((selector - 1) as nat, r@, table@).0);
    }
    write_items((selector - 1) as u32, r, &mut items, table)?;
    wire::write_var_int(out, selector);
    wire::write_bytes(out, items.as_slice());
    proof {
        lemma_joined(before, wire::enc_var_int(selector), items@);
    }
    Ok(())
}

#[verifier::loop_isolation(false)]
fn write_holder_sets(n: u32, r: &mut &[u8], out: &mut Vec<u8>, table: &IdMapping) -> (res: Result<(), TranslateError>)
    ensures
        final(out)@ == old(out)@ + holder_sets_written(n as nat, old(r)@, table@).0,
        ended(res, final(r)@, holder_sets_written(n as nat, old(r)@, table@).1),
{
    let ghost before = out@;
    let ghost wanted = holder_sets_written(n as nat, r@, table@);
    let ghost mut written: Seq<u8> = seq![];
    let mut left: u32 = n;
    proof {
        lemma_nothing(before);
        lemma_nothing(wanted.0);
    }
    while left > 0
        invariant
            out@ == before + written,
            wanted == after(written, holder_sets_written(left as nat, r@, table@)),
        decreases left,
    {
        let ghost step = holder_set_written(r@, table@);
        proof {
            lemma_joined(before, written, step.0);
        }
        holder_set(r, out, table)?;
        left = left - 1;
        proof {
            lemma_joined(written, step.0, holder_sets_written(left as nat, r@, table@).0);
            written = written + step.0;
        }
    }
    proof {
        lemma_nothing(written);
    }
    Ok(())
}

fn write_asked(r: &mut &[u8], out: &mut Vec<u8>, table: &IdMapping) -> (res: Result<(), TranslateError>)
    ensures
        final(out)@ == old(out)@ + asked_written(old(r)@, table@).0,
        ended(res, final(r)@, asked_written(old(r)@, table@).1),
{
    let ghost before = out@;
    proof {
        lemma_nothing(before);
    }
    let n: i32 = wire::or_malformed(wire::get_var_int(r))?;
    if n < 0 || n > MAX_RECIPE_LIST {
        return Err(TranslateError::Count);
    }
    wire::write_var_int(out, n);
    proof {
        lemma_joined(before, wire::enc_var_int(n), holder_sets_written(n as nat, r@, table@).0);
    }
    write_holder_sets(n as u32, r, out, table)
}

/// Translates the ingredients that a recipe asks for.
pub fn crafting_requirements(r: &mut &[u8], out: &mut Vec<u8>, table: &IdMapping) -> (res: Result<(), TranslateError>)
    ensures
        final(out)@ == old(out)@ + requirements_written(old(r)@, table@).0,
        ended(res, final(r)@, requirements_written(old(r)@, table@).1),
{
    let ghost before = out@;
    proof {
        lemma_nothing(before);
    }
    let present: bool = wire::or_malformed(wire::get_bool(r))?;
    wire::write_bool(out, present);
    if !present {
        proof {
            lemma_nothing(wire::enc_bool(false));
        }
        return Ok(());
    }
    proof {
        lemma_joined(before, wire::enc_bool(true), asked_written(r@, table@).0);
    }
    write_asked(r, out, table)
}

} // verus!
