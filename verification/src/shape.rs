//! A grammar for component payloads, and a reader that moves past whatever the
//! grammar describes.
use vstd::prelude::*;
use vstd::slice::slice_subrange;
use crate::catalog;
use crate::catalog::Catalog;
use crate::nbt;
use crate::version;
use crate::version::Version;
use crate::wire;
use crate::wire::ReadingError;

verus! {

/// The layout of a run of bytes.
pub enum Shape {
    /// No bytes.
    Empty,
    /// So many bytes, whatever they are.
    Fixed(u8),
    Bool,
    VarInt,
    Str,
    /// A tag on its own, named where the release names them.
    Nbt,
    /// A count, then as many identifiers; a count of zero stands for a tag name.
    /// The count is one more than the number of identifiers.
    IdSet,
    /// The parameters of a status effect, with the effect it hides, if any.
    Effect,
    /// A component: its id, then the payload that its id calls for.
    Component,
    /// A stack without a way to be empty.
    Template,
    /// A stack; a count of zero ends it.
    Item,
    Then(Box<Shape>, Box<Shape>),
    /// A flag, then the shape where the flag is set.
    Opt(Box<Shape>),
    /// A count, which may not be negative, then as many times the shape.
    Array(Box<Shape>),
    /// A count from zero to the limit, then as many times the shape.
    Upto(i32, Box<Shape>),
    /// A count, then as many times the shape; a negative count is none.
    Repeat(Box<Shape>),
    /// A flag, then the first shape where it is set and the second where not.
    Either(Box<Shape>, Box<Shape>),
    /// A number, then the first shape where it is the one given and the second
    /// where not.
    Case(i32, Box<Shape>, Box<Shape>),
}

// --- spec ------------------------------------------------------------------------

/// What stands behind a VarInt; at least one byte shorter.
pub open spec fn drop_var_int(s: Seq<u8>) -> Option<Seq<u8>> {
    match wire::take_var_int(s) {
        Some((n, rest)) => if rest.len() < s.len() {
            Some(rest)
        } else {
            None
        },
        None => None,
    }
}

pub open spec fn drop_var_ints(n: nat, s: Seq<u8>) -> Option<Seq<u8>>
    decreases n,
{
    if n == 0 {
        Some(s)
    } else {
        match drop_var_int(s) {
            Some(rest) => drop_var_ints((n - 1) as nat, rest),
            None => None,
        }
    }
}

pub open spec fn drop_str(s: Seq<u8>) -> Option<Seq<u8>> {
    match wire::take_str(s) {
        Some((text, rest)) => Some(rest),
        None => None,
    }
}

pub open spec fn drop_id_set(s: Seq<u8>) -> Option<Seq<u8>> {
    match wire::take_var_int(s) {
        Some((n, rest)) => if n < 0 {
            None
        } else if n == 0 {
            drop_str(rest)
        } else {
            drop_var_ints((n - 1) as nat, rest)
        },
        None => None,
    }
}

pub open spec fn drop_effect(s: Seq<u8>) -> Option<Seq<u8>>
    decreases s.len(),
{
    match drop_var_ints(2, s) {
        Some(flags) => if flags.len() < 4 || flags.len() >= s.len() {
            None
        } else if flags[3] != 0 {
            drop_effect(flags.skip(4))
        } else {
            Some(flags.skip(4))
        },
        None => None,
    }
}

pub open spec fn drop_nbt(s: Seq<u8>, version: Version) -> Option<Seq<u8>> {
    match nbt::take_nbt(s, version::nbt_is_named(version)) {
        Some((tag, rest)) => Some(rest),
        None => None,
    }
}

/// What stands behind a run of bytes of the given shape.
pub open spec fn drop_shape(shape: Shape, s: Seq<u8>, cat: &Catalog, version: Version) -> Option<Seq<u8>>
    decreases s.len(), shape, 0nat,
{
    match shape {
        Shape::Empty => Some(s),
        Shape::Fixed(n) => nbt::drop_bytes(s, n as int),
        Shape::Bool => nbt::drop_bytes(s, 1),
        Shape::VarInt => drop_var_int(s),
        Shape::Str => drop_str(s),
        Shape::Nbt => drop_nbt(s, version),
        Shape::IdSet => drop_id_set(s),
        Shape::Effect => drop_effect(s),
        Shape::Component => match wire::take_var_int(s) {
            Some((id, rest)) => match catalog::layout_of(cat, id, version) {
                Some(inner) => if rest.len() < s.len() {
                    drop_shape(inner, rest, cat, version)
                } else {
                    None
                },
                None => None,
            },
            None => None,
        },
        Shape::Template => match drop_var_ints(2, s) {
            Some(rest) => if rest.len() < s.len() {
                drop_patch(rest, cat, version)
            } else {
                None
            },
            None => None,
        },
        Shape::Item => match wire::take_var_int(s) {
            Some((count, t)) => if count == 0 {
                Some(t)
            } else {
                match drop_var_int(t) {
                    Some(rest) => if rest.len() < s.len() {
                        drop_patch(rest, cat, version)
                    } else {
                        None
                    },
                    None => None,
                }
            },
            None => None,
        },
        Shape::Then(first, second) => match drop_shape(*first, s, cat, version) {
            Some(rest) => if rest.len() <= s.len() {
                drop_shape(*second, rest, cat, version)
            } else {
                None
            },
            None => None,
        },
        Shape::Opt(inner) => match wire::take_bool(s) {
            Some((present, rest)) => if present {
                drop_shape(*inner, rest, cat, version)
            } else {
                Some(rest)
            },
            None => None,
        },
        Shape::Array(inner) => match wire::take_var_int(s) {
            Some((n, rest)) => if n < 0 || rest.len() >= s.len() {
                None
            } else {
                drop_times(n as nat, *inner, rest, cat, version)
            },
            None => None,
        },
        Shape::Upto(limit, inner) => match wire::take_var_int(s) {
            Some((n, rest)) => if n < 0 || n > limit || rest.len() >= s.len() {
                None
            } else {
                drop_times(n as nat, *inner, rest, cat, version)
            },
            None => None,
        },
        Shape::Repeat(inner) => match wire::take_var_int(s) {
            Some((n, rest)) => if rest.len() >= s.len() {
                None
            } else {
                drop_times(times(n), *inner, rest, cat, version)
            },
            None => None,
        },
        Shape::Either(first, second) => match wire::take_bool(s) {
            Some((set, rest)) => if set {
                drop_shape(*first, rest, cat, version)
            } else {
                drop_shape(*second, rest, cat, version)
            },
            None => None,
        },
        Shape::Case(wanted, first, second) => match wire::take_var_int(s) {
            Some((n, rest)) => if rest.len() >= s.len() {
                None
            } else if n == wanted {
                drop_shape(*first, rest, cat, version)
            } else {
                drop_shape(*second, rest, cat, version)
            },
            None => None,
        },
    }
}

/// How often a loop up to a count runs.
pub open spec fn times(n: i32) -> nat {
    if n < 0 {
        0
    } else {
        n as nat
    }
}

pub open spec fn drop_times(n: nat, shape: Shape, s: Seq<u8>, cat: &Catalog, version: Version) -> Option<Seq<u8>>
    decreases s.len(), shape, n,
{
    if n == 0 {
        Some(s)
    } else {
        match drop_shape(shape, s, cat, version) {
            Some(rest) => if rest.len() <= s.len() {
                drop_times((n - 1) as nat, shape, rest, cat, version)
            } else {
                None
            },
            None => None,
        }
    }
}

/// What stands behind a stack's component patch: the two counts, the added
/// components, the ids of the removed ones.
pub open spec fn drop_patch(s: Seq<u8>, cat: &Catalog, version: Version) -> Option<Seq<u8>>
    decreases s.len(), Shape::Component, 0nat,
{
    match wire::take_var_int(s) {
        Some((added, t)) => match wire::take_var_int(t) {
            Some((removed, rest)) => if added < 0 || removed < 0 || t.len() >= s.len() || rest.len()
                >= s.len() {
                None
            } else {
                match drop_times(added as nat, Shape::Component, rest, cat, version) {
                    Some(ids) => drop_var_ints(removed as nat, ids),
                    None => None,
                }
            },
            None => None,
        },
        None => None,
    }
}

// --- exec ------------------------------------------------------------------------

pub fn skip_var_int(r: &mut &[u8]) -> (res: Result<(), ReadingError>)
    ensures
        match drop_var_int(old(r)@) {
            Some(rest) => res is Ok && final(r)@ == rest,
            None => res is Err,
        },
{
    let before: usize = r.len();
    wire::get_var_int(r)?;
    if r.len() < before {
        Ok(())
    } else {
        Err(ReadingError::Malformed)
    }
}

#[verifier::loop_isolation(false)]
pub fn skip_var_ints(n: u32, r: &mut &[u8]) -> (res: Result<(), ReadingError>)
    ensures
        match drop_var_ints(n as nat, old(r)@) {
            Some(rest) => res is Ok && final(r)@ == rest,
            None => res is Err,
        },
{
    let mut left: u32 = n;
    while left > 0
        invariant
            drop_var_ints(n as nat, old(r)@) == drop_var_ints(left as nat, r@),
        decreases left,
    {
        skip_var_int(r)?;
        left = left - 1;
    }
    Ok(())
}

pub fn skip_str(r: &mut &[u8]) -> (res: Result<(), ReadingError>)
    ensures
        match drop_str(old(r)@) {
            Some(rest) => res is Ok && final(r)@ == rest,
            None => res is Err,
        },
{
    wire::get_str(r)?;
    Ok(())
}

pub fn skip_id_set(r: &mut &[u8]) -> (res: Result<(), ReadingError>)
    ensures
        match drop_id_set(old(r)@) {
            Some(rest) => res is Ok && final(r)@ == rest,
            None => res is Err,
        },
{
    let n: i32 = wire::get_var_int(r)?;
    if n < 0 {
        Err(ReadingError::Malformed)
    } else if n == 0 {
        skip_str(r)
    } else {
        skip_var_ints((n - 1) as u32, r)
    }
}

#[verifier::loop_isolation(false)]
pub fn skip_effect_parameters(r: &mut &[u8]) -> (res: Result<(), ReadingError>)
    ensures
        match drop_effect(old(r)@) {
            Some(rest) => res is Ok && final(r)@ == rest,
            None => res is Err,
        },
{
    loop
        invariant
            drop_effect(old(r)@) == drop_effect(r@),
        decreases r@.len(),
    {
        let before: usize = r.len();
        skip_var_ints(2, r)?;
        let ghost flags = r@;
        if r.len() < 4 || r.len() >= before {
            return Err(ReadingError::Malformed);
        }
        let hidden: bool = r[3] != 0;
        *r = slice_subrange(*r, 4, r.len());
        assert(r@ =~= flags.skip(4));
        if !hidden {
            return Ok(());
        }
    }
}

pub fn skip_nbt(r: &mut &[u8], version: Version) -> (res: Result<(), ReadingError>)
    ensures
        match drop_nbt(old(r)@, version) {
            Some(rest) => res is Ok && final(r)@ == rest,
            None => res is Err,
        },
{
    nbt::get_nbt(r, version::has_named_nbt(version))?;
    Ok(())
}

/// Moves past a run of bytes of the given shape.
pub fn skip(shape: &Shape, r: &mut &[u8], cat: &Catalog, version: Version) -> (res: Result<(), ReadingError>)
    ensures
        match drop_shape(*shape, old(r)@, cat, version) {
            Some(rest) => res is Ok && final(r)@ == rest,
            None => res is Err,
        },
    decreases old(r)@.len(), *shape, 0nat,
{
    let before: usize = r.len();
    match shape {
        Shape::Empty => Ok(()),
        Shape::Fixed(n) => {
            wire::get_bytes(r, *n as usize)?;
            Ok(())
        },
        Shape::Bool => {
            wire::get_bytes(r, 1)?;
            Ok(())
        },
        Shape::VarInt => skip_var_int(r),
        Shape::Str => skip_str(r),
        Shape::Nbt => skip_nbt(r, version),
        Shape::IdSet => skip_id_set(r),
        Shape::Effect => skip_effect_parameters(r),
        Shape::Component => {
            let id: i32 = wire::get_var_int(r)?;
            match cat.layout(id, version) {
                Some(inner) => {
                    if r.len() >= before {
                        return Err(ReadingError::Malformed);
                    }
                    skip(inner, r, cat, version)
                },
                None => Err(ReadingError::Malformed),
            }
        },
        Shape::Template => {
            skip_var_ints(2, r)?;
            if r.len() >= before {
                return Err(ReadingError::Malformed);
            }
            skip_patch(r, cat, version)
        },
        Shape::Item => {
            let count: i32 = wire::get_var_int(r)?;
            if count == 0 {
                return Ok(());
            }
            skip_var_int(r)?;
            if r.len() >= before {
                return Err(ReadingError::Malformed);
            }
            skip_patch(r, cat, version)
        },
        Shape::Then(first, second) => {
            skip(first, r, cat, version)?;
            if r.len() > before {
                return Err(ReadingError::Malformed);
            }
            skip(second, r, cat, version)
        },
        Shape::Opt(inner) => {
            let present: bool = wire::get_bool(r)?;
            if present {
                skip(inner, r, cat, version)
            } else {
                Ok(())
            }
        },
        Shape::Array(inner) => {
            let n: i32 = wire::get_var_int(r)?;
            if n < 0 || r.len() >= before {
                return Err(ReadingError::Malformed);
            }
            skip_times(n as u32, inner, r, cat, version)
        },
        Shape::Upto(limit, inner) => {
            let n: i32 = wire::get_var_int(r)?;
            if n < 0 || n > *limit || r.len() >= before {
                return Err(ReadingError::Malformed);
            }
            skip_times(n as u32, inner, r, cat, version)
        },
        Shape::Repeat(inner) => {
            let n: i32 = wire::get_var_int(r)?;
            if r.len() >= before {
                return Err(ReadingError::Malformed);
            }
            skip_times(if n < 0 { 0 } else { n as u32 }, inner, r, cat, version)
        },
        Shape::Either(first, second) => {
            let set: bool = wire::get_bool(r)?;
            if set {
                skip(first, r, cat, version)
            } else {
                skip(second, r, cat, version)
            }
        },
        Shape::Case(wanted, first, second) => {
            let n: i32 = wire::get_var_int(r)?;
            if r.len() >= before {
                return Err(ReadingError::Malformed);
            }
            if n == *wanted {
                skip(first, r, cat, version)
            } else {
                skip(second, r, cat, version)
            }
        },
    }
}

fn skip_times(n: u32, shape: &Shape, r: &mut &[u8], cat: &Catalog, version: Version) -> (res: Result<
    (),
    ReadingError,
>)
    ensures
        match drop_times(n as nat, *shape, old(r)@, cat, version) {
            Some(rest) => res is Ok && final(r)@ == rest,
            None => res is Err,
        },
    decreases old(r)@.len(), *shape, n as nat,
{
    let mut left: u32 = n;
    while left > 0
        invariant
            left <= n,
            r@.len() <= old(r)@.len(),
            drop_times(n as nat, *shape, old(r)@, cat, version) == drop_times(
                left as nat,
                *shape,
                r@,
                cat,
                version,
            ),
        decreases left,
    {
        let before: usize = r.len();
        skip(shape, r, cat, version)?;
        if r.len() > before {
            return Err(ReadingError::Malformed);
        }
        left = left - 1;
    }
    Ok(())
}

fn skip_patch(r: &mut &[u8], cat: &Catalog, version: Version) -> (res: Result<(), ReadingError>)
    ensures
        match drop_patch(old(r)@, cat, version) {
            Some(rest) => res is Ok && final(r)@ == rest,
            None => res is Err,
        },
    decreases old(r)@.len(), Shape::Component, 0nat,
{
    let before: usize = r.len();
    let added: i32 = wire::get_var_int(r)?;
    let middle: usize = r.len();
    let removed: i32 = wire::get_var_int(r)?;
    if added < 0 || removed < 0 || middle >= before || r.len() >= before {
        return Err(ReadingError::Malformed);
    }
    skip_times(added as u32, &Shape::Component, r, cat, version)?;
    skip_var_ints(removed as u32, r)
}

/// The bytes of a run of the given shape, cut off the front.
pub open spec fn take_shape(shape: Shape, s: Seq<u8>, cat: &Catalog, version: Version) -> Option<
    (Seq<u8>, Seq<u8>),
> {
    match drop_shape(shape, s, cat, version) {
        Some(rest) => if rest.len() <= s.len() {
            Some((s.take(s.len() - rest.len()), rest))
        } else {
            None
        },
        None => None,
    }
}

pub fn get_shape<'a>(shape: &Shape, r: &mut &'a [u8], cat: &Catalog, version: Version) -> (res: Result<
    &'a [u8],
    ReadingError,
>)
    ensures
        match take_shape(*shape, old(r)@, cat, version) {
            Some((bytes, rest)) => res is Ok && res->Ok_0@ == bytes && final(r)@ == rest,
            None => res is Err,
        },
{
    let source: &'a [u8] = *r;
    skip(shape, r, cat, version)?;
    if r.len() > source.len() {
        return Err(ReadingError::Malformed);
    }
    Ok(slice_subrange(source, 0, source.len() - r.len()))
}

/// Copies a run of the given shape as it stands.
pub fn copy_shape(
    shape: &Shape,
    r: &mut &[u8],
    out: &mut Vec<u8>,
    cat: &Catalog,
    version: Version,
) -> (res: Result<(), ReadingError>)
    ensures
        match take_shape(*shape, old(r)@, cat, version) {
            Some((bytes, rest)) => res is Ok && final(out)@ == old(out)@ + bytes && final(r)@ == rest,
            None => res is Err,
        },
{
    let bytes: &[u8] = get_shape(shape, r, cat, version)?;
    wire::write_bytes(out, bytes);
    Ok(())
}


// --- builders --------------------------------------------------------------------

#[verifier::allow_in_spec]
pub fn pair(first: Shape, second: Shape) -> Shape
    returns
        (Shape::Then(Box::new(first), Box::new(second))),
{
    Shape::Then(Box::new(first), Box::new(second))
}

#[verifier::allow_in_spec]
pub fn opt(inner: Shape) -> Shape
    returns
        (Shape::Opt(Box::new(inner))),
{
    Shape::Opt(Box::new(inner))
}

#[verifier::allow_in_spec]
pub fn array(inner: Shape) -> Shape
    returns
        (Shape::Array(Box::new(inner))),
{
    Shape::Array(Box::new(inner))
}

#[verifier::allow_in_spec]
pub fn upto(limit: i32, inner: Shape) -> Shape
    returns
        (Shape::Upto(limit, Box::new(inner))),
{
    Shape::Upto(limit, Box::new(inner))
}

#[verifier::allow_in_spec]
pub fn repeat(inner: Shape) -> Shape
    returns
        (Shape::Repeat(Box::new(inner))),
{
    Shape::Repeat(Box::new(inner))
}

#[verifier::allow_in_spec]
pub fn either(first: Shape, second: Shape) -> Shape
    returns
        (Shape::Either(Box::new(first), Box::new(second))),
{
    Shape::Either(Box::new(first), Box::new(second))
}

#[verifier::allow_in_spec]
pub fn case(wanted: i32, first: Shape, second: Shape) -> Shape
    returns
        (Shape::Case(wanted, Box::new(first), Box::new(second))),
{
    Shape::Case(wanted, Box::new(first), Box::new(second))
}

#[verifier::allow_in_spec]
pub fn three(a: Shape, b: Shape, c: Shape) -> Shape
    returns
        (pair(a, pair(b, c))),
{
    pair(a, pair(b, c))
}

#[verifier::allow_in_spec]
pub fn four(a: Shape, b: Shape, c: Shape, d: Shape) -> Shape
    returns
        (pair(a, three(b, c, d))),
{
    pair(a, three(b, c, d))
}

/// A sound by its id plus one; zero stands for a name with a range it may have.
#[verifier::allow_in_spec]
pub fn sound() -> Shape
    returns
        (case(0, pair(Shape::Str, opt(Shape::Fixed(4))), Shape::Empty)),
{
    case(0, pair(Shape::Str, opt(Shape::Fixed(4))), Shape::Empty)
}

/// Status effects with their parameters.
#[verifier::allow_in_spec]
pub fn status_effects() -> Shape
    returns
        (array(pair(Shape::VarInt, Shape::Effect))),
{
    array(pair(Shape::VarInt, Shape::Effect))
}

// --- writing a run anew -------------------------------------------------------------

pub open spec fn recode_var_ints(n: nat, s: Seq<u8>) -> Option<(Seq<u8>, Seq<u8>)>
    decreases n,
{
    if n == 0 {
        Some((seq![], s))
    } else {
        match wire::take_var_int(s) {
            Some((v, t)) => match recode_var_ints((n - 1) as nat, t) {
                Some((out, rest)) => Some((wire::enc_var_int(v) + out, rest)),
                None => None,
            },
            None => None,
        }
    }
}

pub open spec fn recode_str(s: Seq<u8>) -> Option<(Seq<u8>, Seq<u8>)> {
    match wire::take_str(s) {
        Some((text, rest)) => Some((wire::enc_str(text), rest)),
        None => None,
    }
}

/// Puts `head` before what was written.
pub open spec fn after(head: Seq<u8>, written: Option<(Seq<u8>, Seq<u8>)>) -> Option<(Seq<u8>, Seq<u8>)> {
    match written {
        Some((out, rest)) => Some((head + out, rest)),
        None => None,
    }
}

/// A run of the given shape with each of its fields read and written again:
/// numbers take their shortest form and flags become zero or one. Tags, effects,
/// components and stacks are kept as they stand.
pub open spec fn recode(shape: Shape, s: Seq<u8>, cat: &Catalog, version: Version) -> Option<
    (Seq<u8>, Seq<u8>),
>
    decreases shape, 0nat,
{
    match shape {
        Shape::Bool => match wire::take_bool(s) {
            Some((v, rest)) => Some((wire::enc_bool(v), rest)),
            None => None,
        },
        Shape::VarInt => match wire::take_var_int(s) {
            Some((v, rest)) => Some((wire::enc_var_int(v), rest)),
            None => None,
        },
        Shape::Str => recode_str(s),
        Shape::IdSet => match wire::take_var_int(s) {
            Some((n, rest)) => if n < 0 {
                None
            } else if n == 0 {
                after(wire::enc_var_int(0), recode_str(rest))
            } else {
                after(wire::enc_var_int(n), recode_var_ints((n - 1) as nat, rest))
            },
            None => None,
        },
        Shape::Then(first, second) => match recode(*first, s, cat, version) {
            Some((out, rest)) => after(out, recode(*second, rest, cat, version)),
            None => None,
        },
        Shape::Opt(inner) => match wire::take_bool(s) {
            Some((present, rest)) => if present {
                after(wire::enc_bool(true), recode(*inner, rest, cat, version))
            } else {
                Some((wire::enc_bool(false), rest))
            },
            None => None,
        },
        Shape::Array(inner) => match wire::take_var_int(s) {
            Some((n, rest)) => if n < 0 {
                None
            } else {
                after(wire::enc_var_int(n), recode_times(n as nat, *inner, rest, cat, version))
            },
            None => None,
        },
        Shape::Upto(limit, inner) => match wire::take_var_int(s) {
            Some((n, rest)) => if n < 0 || n > limit {
                None
            } else {
                after(wire::enc_var_int(n), recode_times(n as nat, *inner, rest, cat, version))
            },
            None => None,
        },
        Shape::Repeat(inner) => match wire::take_var_int(s) {
            Some((n, rest)) => after(
                wire::enc_var_int(n),
                recode_times(times(n), *inner, rest, cat, version),
            ),
            None => None,
        },
        Shape::Either(first, second) => match wire::take_bool(s) {
            Some((set, rest)) => after(
                wire::enc_bool(set),
                if set {
                    recode(*first, rest, cat, version)
                } else {
                    recode(*second, rest, cat, version)
                },
            ),
            None => None,
        },
        Shape::Case(wanted, first, second) => match wire::take_var_int(s) {
            Some((n, rest)) => after(
                wire::enc_var_int(n),
                if n == wanted {
                    recode(*first, rest, cat, version)
                } else {
                    recode(*second, rest, cat, version)
                },
            ),
            None => None,
        },
        _ => take_shape(shape, s, cat, version),
    }
}

pub open spec fn recode_times(n: nat, shape: Shape, s: Seq<u8>, cat: &Catalog, version: Version) -> Option<
    (Seq<u8>, Seq<u8>),
>
    decreases shape, n,
{
    if n == 0 {
        Some((seq![], s))
    } else {
        match recode(shape, s, cat, version) {
            Some((out, rest)) => after(out, recode_times((n - 1) as nat, shape, rest, cat, version)),
            None => None,
        }
    }
}

#[verifier::loop_isolation(false)]
fn rewrite_var_ints(n: u32, r: &mut &[u8], out: &mut Vec<u8>) -> (res: Result<(), ReadingError>)
    ensures
        match recode_var_ints(n as nat, old(r)@) {
            Some((bytes, rest)) => res is Ok && final(out)@ == old(out)@ + bytes && final(r)@ == rest,
            None => res is Err,
        },
{
    let mut left: u32 = n;
    assert(out@ =~= old(out)@ + Seq::<u8>::empty());
    while left > 0
        invariant
            match recode_var_ints(n as nat, old(r)@) {
                Some((bytes, rest)) => recode_var_ints(left as nat, r@) matches Some((more, end)) && end == rest
                    && old(out)@ + bytes == out@ + more,
                None => recode_var_ints(left as nat, r@) is None,
            },
        decreases left,
    {
        let v: i32 = wire::get_var_int(r)?;
        let ghost before = out@;
        wire::write_var_int(out, v);
        left = left - 1;
        proof {
            if let Some((more, end)) = recode_var_ints(left as nat, r@) {
                assert(before + (wire::enc_var_int(v) + more) =~= out@ + more);
            }
        }
    }
    Ok(())
}

fn rewrite_str(r: &mut &[u8], out: &mut Vec<u8>) -> (res: Result<(), ReadingError>)
    ensures
        match recode_str(old(r)@) {
            Some((bytes, rest)) => res is Ok && final(out)@ == old(out)@ + bytes && final(r)@ == rest,
            None => res is Err,
        },
{
    let text: &[u8] = wire::get_str(r)?;
    wire::write_str(out, text);
    Ok(())
}

/// Reads a run of the given shape field by field and writes it again.
#[verifier::rlimit(60)]
pub fn rewrite(
    shape: &Shape,
    r: &mut &[u8],
    out: &mut Vec<u8>,
    cat: &Catalog,
    version: Version,
) -> (res: Result<(), ReadingError>)
    ensures
        match recode(*shape, old(r)@, cat, version) {
            Some((bytes, rest)) => res is Ok && final(out)@ == old(out)@ + bytes && final(r)@ == rest,
            None => res is Err,
        },
    decreases *shape, 0nat,
{
    match shape {
        Shape::Bool => {
            let v: bool = wire::get_bool(r)?;
            wire::write_bool(out, v);
            Ok(())
        },
        Shape::VarInt => {
            let v: i32 = wire::get_var_int(r)?;
            wire::write_var_int(out, v);
            Ok(())
        },
        Shape::Str => rewrite_str(r, out),
        Shape::IdSet => {
            let n: i32 = wire::get_var_int(r)?;
            if n < 0 {
                return Err(ReadingError::Malformed);
            }
            wire::write_var_int(out, n);
            if n == 0 {
                rewrite_str(r, out)
            } else {
                rewrite_var_ints((n - 1) as u32, r, out)
            }
        },
        Shape::Then(first, second) => {
            rewrite(first, r, out, cat, version)?;
            rewrite(second, r, out, cat, version)
        },
        Shape::Opt(inner) => {
            let present: bool = wire::get_bool(r)?;
            wire::write_bool(out, present);
            if present {
                rewrite(inner, r, out, cat, version)
            } else {
                Ok(())
            }
        },
        Shape::Array(inner) => {
            let n: i32 = wire::get_var_int(r)?;
            if n < 0 {
                return Err(ReadingError::Malformed);
            }
            wire::write_var_int(out, n);
            rewrite_times(n as u32, inner, r, out, cat, version)
        },
        Shape::Upto(limit, inner) => {
            let n: i32 = wire::get_var_int(r)?;
            if n < 0 || n > *limit {
                return Err(ReadingError::Malformed);
            }
            wire::write_var_int(out, n);
            rewrite_times(n as u32, inner, r, out, cat, version)
        },
        Shape::Repeat(inner) => {
            let n: i32 = wire::get_var_int(r)?;
            wire::write_var_int(out, n);
            rewrite_times(if n < 0 { 0 } else { n as u32 }, inner, r, out, cat, version)
        },
        Shape::Either(first, second) => {
            let set: bool = wire::get_bool(r)?;
            wire::write_bool(out, set);
            if set {
                rewrite(first, r, out, cat, version)
            } else {
                rewrite(second, r, out, cat, version)
            }
        },
        Shape::Case(wanted, first, second) => {
            let n: i32 = wire::get_var_int(r)?;
            wire::write_var_int(out, n);
            if n == *wanted {
                rewrite(first, r, out, cat, version)
            } else {
                rewrite(second, r, out, cat, version)
            }
        },
        _ => copy_shape(shape, r, out, cat, version),
    }
}

fn rewrite_times(
    n: u32,
    shape: &Shape,
    r: &mut &[u8],
    out: &mut Vec<u8>,
    cat: &Catalog,
    version: Version,
) -> (res: Result<(), ReadingError>)
    ensures
        match recode_times(n as nat, *shape, old(r)@, cat, version) {
            Some((bytes, rest)) => res is Ok && final(out)@ == old(out)@ + bytes && final(r)@ == rest,
            None => res is Err,
        },
    decreases *shape, n as nat,
{
    let mut left: u32 = n;
    assert(out@ =~= old(out)@ + Seq::<u8>::empty());
    while left > 0
        invariant
            left <= n,
            match recode_times(n as nat, *shape, old(r)@, cat, version) {
                Some((bytes, rest)) => recode_times(left as nat, *shape, r@, cat, version) matches Some(
                    (more, end),
                ) && end == rest && old(out)@ + bytes == out@ + more,
                None => recode_times(left as nat, *shape, r@, cat, version) is None,
            },
        decreases left,
    {
        let ghost before = out@;
        let ghost here = r@;
        rewrite(shape, r, out, cat, version)?;
        left = left - 1;
        proof {
            let (bytes, rest) = recode(*shape, here, cat, version)->0;
            if let Some((more, end)) = recode_times(left as nat, *shape, r@, cat, version) {
                assert(before + (bytes + more) =~= out@ + more);
            }
        }
    }
    Ok(())
}

// --- writing anew twice -----------------------------------------------------------------------------

/// Whether a shape is made of numbers and runs of bytes alone.
pub open spec fn is_plain(shape: Shape) -> bool
    decreases shape,
{
    match shape {
        Shape::VarInt => true,
        Shape::Fixed(_) => true,
        Shape::Then(first, second) => is_plain(*first) && is_plain(*second),
        Shape::Repeat(inner) => is_plain(*inner),
        _ => false,
    }
}

/// As `recoded_runs_are_settled`, of one run behind another.
proof fn lemma_then_settled(
    first: Shape,
    second: Shape,
    s: Seq<u8>,
    head: Seq<u8>,
    t: Seq<u8>,
    tail: Seq<u8>,
    u: Seq<u8>,
    more: Seq<u8>,
    cat: &Catalog,
    version: Version,
)
    requires
        recode(first, s, cat, version) == Some((head, t)),
        recode(second, t, cat, version) == Some((tail, u)),
        recode(first, head + (tail + more), cat, version) == Some((head, tail + more)),
        recode(second, tail + more, cat, version) == Some((tail, more)),
    ensures
        recode(Shape::Then(Box::new(first), Box::new(second)), s, cat, version) == Some((head + tail, u)),
        recode(Shape::Then(Box::new(first), Box::new(second)), head + tail + more, cat, version) == Some(
            (head + tail, more),
        ),
{
    assert(head + tail + more =~= head + (tail + more));
}

/// As `recoded_runs_are_settled`, of a counted run.
proof fn lemma_repeat_settled(
    inner: Shape,
    s: Seq<u8>,
    n: i32,
    t: Seq<u8>,
    tail: Seq<u8>,
    u: Seq<u8>,
    more: Seq<u8>,
    cat: &Catalog,
    version: Version,
)
    requires
        wire::take_var_int(s) == Some((n, t)),
        recode_times(times(n), inner, t, cat, version) == Some((tail, u)),
        recode_times(times(n), inner, tail + more, cat, version) == Some((tail, more)),
    ensures
        recode(Shape::Repeat(Box::new(inner)), s, cat, version) == Some((wire::enc_var_int(n) + tail, u)),
        recode(Shape::Repeat(Box::new(inner)), wire::enc_var_int(n) + tail + more, cat, version) == Some(
            (wire::enc_var_int(n) + tail, more),
        ),
{
    wire::var_int_round_trip(n, tail + more);
    assert(wire::enc_var_int(n) + tail + more =~= wire::enc_var_int(n) + (tail + more));
}

/// What was written anew is written anew as it stands, whatever is behind it.
#[verifier::spinoff_prover]
#[verifier::rlimit(60)]
pub proof fn recoded_runs_are_settled(shape: Shape, s: Seq<u8>, more: Seq<u8>, cat: &Catalog, version: Version)
    requires
        is_plain(shape),
    ensures
        recode(shape, s, cat, version) matches Some((out, rest)) ==> recode(shape, out + more, cat, version) == Some(
            (out, more),
        ),
    decreases shape, 0nat,
{
    if let Some((out, rest)) = recode(shape, s, cat, version) {
        match shape {
            Shape::VarInt => {
                let v = wire::take_var_int(s).unwrap().0;
                wire::var_int_round_trip(v, more);
            },
            Shape::Fixed(n) => {
                assert((out + more).take(out.len() as int) =~= out);
                assert((out + more).skip(out.len() as int) =~= more);
            },
            Shape::Then(first, second) => {
                let (head, t) = recode(*first, s, cat, version).unwrap();
                let (tail, u) = recode(*second, t, cat, version).unwrap();
                recoded_runs_are_settled(*first, s, tail + more, cat, version);
                recoded_runs_are_settled(*second, t, more, cat, version);
                lemma_then_settled(*first, *second, s, head, t, tail, u, more, cat, version);
            },
            Shape::Repeat(inner) => {
                let (n, t) = wire::take_var_int(s).unwrap();
                let (tail, u) = recode_times(times(n), *inner, t, cat, version).unwrap();
                lemma_times_settled(times(n), *inner, t, more, cat, version);
                lemma_repeat_settled(*inner, s, n, t, tail, u, more, cat, version);
            },
            _ => {},
        }
    }
}

proof fn lemma_times_settled(n: nat, shape: Shape, s: Seq<u8>, more: Seq<u8>, cat: &Catalog, version: Version)
    requires
        is_plain(shape),
    ensures
        recode_times(n, shape, s, cat, version) matches Some((out, rest)) ==> recode_times(
            n,
            shape,
            out + more,
            cat,
            version,
        ) == Some((out, more)),
    decreases shape, n,
{
    if let Some((out, rest)) = recode_times(n, shape, s, cat, version) {
        if n == 0 {
            assert(out + more =~= more);
        } else {
            let (head, t) = recode(shape, s, cat, version).unwrap();
            let (tail, u) = recode_times((n - 1) as nat, shape, t, cat, version).unwrap();
            recoded_runs_are_settled(shape, s, tail + more, cat, version);
            lemma_times_settled((n - 1) as nat, shape, t, more, cat, version);
            assert(head + tail + more =~= head + (tail + more));
        }
    }
}

} // verus!
