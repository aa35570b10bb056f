//! NBT values in their encoded form.
//!
//! A tag is its kind and the bytes of its payload; a compound is the list of
//! its named tags, in the order in which they were put. Payloads are parsed
//! when something looks inside them, and written as they stand.
use vstd::prelude::*;
use crate::wire;
use crate::wire::ReadingError;
use vstd::slice::slice_subrange;
use vstd::slice::slice_to_vec;

verus! {

pub const TAG_END: u8 = 0;
pub const TAG_BYTE: u8 = 1;
pub const TAG_SHORT: u8 = 2;
pub const TAG_INT: u8 = 3;
pub const TAG_LONG: u8 = 4;
pub const TAG_FLOAT: u8 = 5;
pub const TAG_DOUBLE: u8 = 6;
pub const TAG_BYTE_ARRAY: u8 = 7;
pub const TAG_STRING: u8 = 8;
pub const TAG_LIST: u8 = 9;
pub const TAG_COMPOUND: u8 = 10;
pub const TAG_INT_ARRAY: u8 = 11;
pub const TAG_LONG_ARRAY: u8 = 12;

/// What stands behind the next `n` bytes.
pub open spec fn drop_bytes(s: Seq<u8>, n: int) -> Option<Seq<u8>> {
    if 0 <= n <= s.len() {
        Some(s.skip(n))
    } else {
        None
    }
}

/// What stands behind an array of `width`-byte elements with its length in
/// front.
pub open spec fn drop_array(s: Seq<u8>, width: int) -> Option<Seq<u8>> {
    match wire::take_i32(s) {
        Some((n, rest)) => drop_bytes(rest, n * width),
        None => None,
    }
}

pub open spec fn drop_text(s: Seq<u8>) -> Option<Seq<u8>> {
    match wire::take_u16(s) {
        Some((n, rest)) => drop_bytes(rest, n as int),
        None => None,
    }
}

/// What stands behind a payload of the given kind.
pub open spec fn drop_payload(kind: u8, s: Seq<u8>) -> Option<Seq<u8>>
    decreases s.len(), 1int,
{
    if kind == TAG_BYTE {
        drop_bytes(s, 1)
    } else if kind == TAG_SHORT {
        drop_bytes(s, 2)
    } else if kind == TAG_INT || kind == TAG_FLOAT {
        drop_bytes(s, 4)
    } else if kind == TAG_LONG || kind == TAG_DOUBLE {
        drop_bytes(s, 8)
    } else if kind == TAG_BYTE_ARRAY {
        drop_array(s, 1)
    } else if kind == TAG_STRING {
        drop_text(s)
    } else if kind == TAG_LIST {
        if s.len() < 5 {
            None
        } else {
            match wire::take_i32(s.skip(1)) {
                Some((n, rest)) => if n < 0 {
                    None
                } else {
                    drop_elements(s[0], n as nat, s.skip(5))
                },
                None => None,
            }
        }
    } else if kind == TAG_COMPOUND {
        drop_entries(s)
    } else if kind == TAG_INT_ARRAY {
        drop_array(s, 4)
    } else if kind == TAG_LONG_ARRAY {
        drop_array(s, 8)
    } else {
        None
    }
}

/// What stands behind `n` payloads of one kind. Each of them is at least one
/// byte long.
pub open spec fn drop_elements(kind: u8, n: nat, s: Seq<u8>) -> Option<Seq<u8>>
    decreases s.len(), 2int,
{
    if n == 0 {
        Some(s)
    } else {
        match drop_payload(kind, s) {
            Some(rest) => if rest.len() < s.len() {
                drop_elements(kind, (n - 1) as nat, rest)
            } else {
                None
            },
            None => None,
        }
    }
}

/// What stands behind the named tags of a compound and the end mark.
pub open spec fn drop_entries(s: Seq<u8>) -> Option<Seq<u8>>
    decreases s.len(), 0int,
{
    if s.len() == 0 {
        None
    } else if s[0] == TAG_END {
        Some(s.skip(1))
    } else {
        match drop_text(s.skip(1)) {
            Some(t) => if t.len() < s.len() {
                match drop_payload(s[0], t) {
                    Some(rest) => if rest.len() < s.len() {
                        drop_entries(rest)
                    } else {
                        None
                    },
                    None => None,
                }
            } else {
                None
            },
            None => None,
        }
    }
}

pub proof fn lemma_payload_shorter(kind: u8, s: Seq<u8>)
    ensures
        drop_payload(kind, s) matches Some(rest) ==> rest.len() < s.len(),
    decreases s.len(), 1int,
{
    if kind == TAG_LIST && s.len() >= 5 {
        if let Some((n, rest)) = wire::take_i32(s.skip(1)) {
            if n >= 0 {
                lemma_elements_shorter(s[0], n as nat, s.skip(5));
            }
        }
    } else if kind == TAG_COMPOUND {
        lemma_entries_shorter(s);
    }
}

proof fn lemma_elements_shorter(kind: u8, n: nat, s: Seq<u8>)
    ensures
        drop_elements(kind, n, s) matches Some(rest) ==> rest.len() <= s.len(),
    decreases s.len(), 2int,
{
    if n > 0 {
        if let Some(rest) = drop_payload(kind, s) {
            if rest.len() < s.len() {
                lemma_elements_shorter(kind, (n - 1) as nat, rest);
            }
        }
    }
}

proof fn lemma_entries_shorter(s: Seq<u8>)
    ensures
        drop_entries(s) matches Some(rest) ==> rest.len() < s.len(),
    decreases s.len(), 0int,
{
    if s.len() > 0 && s[0] != TAG_END {
        if let Some(t) = drop_text(s.skip(1)) {
            if let Some(rest) = drop_payload(s[0], t) {
                if rest.len() < s.len() {
                    lemma_entries_shorter(rest);
                }
            }
        }
    }
}

fn skip_bytes(r: &mut &[u8], n: usize) -> (res: Result<(), ReadingError>)
    ensures
        match drop_bytes(old(r)@, n as int) {
            Some(rest) => res is Ok && final(r)@ == rest,
            None => res is Err,
        },
        res is Ok ==> final(r)@.len() <= old(r)@.len(),
{
    wire::get_bytes(r, n)?;
    Ok(())
}

fn skip_array(r: &mut &[u8], width: usize) -> (res: Result<(), ReadingError>)
    requires
        0 < width <= 8,
    ensures
        match drop_array(old(r)@, width as int) {
            Some(rest) => res is Ok && final(r)@ == rest,
            None => res is Err,
        },
        res is Ok ==> final(r)@.len() <= old(r)@.len(),
{
    let n: i32 = wire::get_i32(r)?;
    if n < 0 {
        assert(n * width < 0) by (nonlinear_arith)
            requires
                n < 0,
                width > 0,
        ;
        return Err(ReadingError::Malformed);
    }
    assert(n * width <= 0x7fff_ffff * 8) by (nonlinear_arith)
        requires
            0 <= n <= 0x7fff_ffff,
            0 < width <= 8,
    ;
    let total: u64 = n as u64 * width as u64;
    if total > r.len() as u64 {
        return Err(ReadingError::Malformed);
    }
    skip_bytes(r, total as usize)
}

fn skip_text(r: &mut &[u8]) -> (res: Result<(), ReadingError>)
    ensures
        match drop_text(old(r)@) {
            Some(rest) => res is Ok && final(r)@ == rest,
            None => res is Err,
        },
        res is Ok ==> final(r)@.len() <= old(r)@.len(),
{
    let n: u16 = wire::get_u16(r)?;
    skip_bytes(r, n as usize)
}

/// Moves past one payload of the given kind.
pub fn skip_payload(kind: u8, r: &mut &[u8]) -> (res: Result<(), ReadingError>)
    ensures
        match drop_payload(kind, old(r)@) {
            Some(rest) => res is Ok && final(r)@ == rest,
            None => res is Err,
        },
        res is Ok ==> final(r)@.len() <= old(r)@.len(),
    decreases old(r)@.len(), 1int,
{
    if kind == TAG_BYTE {
        skip_bytes(r, 1)
    } else if kind == TAG_SHORT {
        skip_bytes(r, 2)
    } else if kind == TAG_INT || kind == TAG_FLOAT {
        skip_bytes(r, 4)
    } else if kind == TAG_LONG || kind == TAG_DOUBLE {
        skip_bytes(r, 8)
    } else if kind == TAG_BYTE_ARRAY {
        skip_array(r, 1)
    } else if kind == TAG_STRING {
        skip_text(r)
    } else if kind == TAG_LIST {
        let element: u8 = wire::get_u8(r)?;
        let n: i32 = wire::get_i32(r)?;
        if n < 0 {
            return Err(ReadingError::Malformed);
        }
        assert(r@ =~= old(r)@.skip(5));
        skip_elements(element, n as u32, r)
    } else if kind == TAG_COMPOUND {
        skip_entries(r)
    } else if kind == TAG_INT_ARRAY {
        skip_array(r, 4)
    } else if kind == TAG_LONG_ARRAY {
        skip_array(r, 8)
    } else {
        Err(ReadingError::Malformed)
    }
}

fn skip_elements(kind: u8, n: u32, r: &mut &[u8]) -> (res: Result<(), ReadingError>)
    ensures
        match drop_elements(kind, n as nat, old(r)@) {
            Some(rest) => res is Ok && final(r)@ == rest,
            None => res is Err,
        },
        res is Ok ==> final(r)@.len() <= old(r)@.len(),
    decreases old(r)@.len(), 2int,
{
    let mut left: u32 = n;
    while left > 0
        invariant
            drop_elements(kind, n as nat, old(r)@) == drop_elements(kind, left as nat, r@),
            r@.len() <= old(r)@.len(),
        decreases left,
    {
        let before: usize = r.len();
        skip_payload(kind, r)?;
        if r.len() >= before {
            return Err(ReadingError::Malformed);
        }
        left = left - 1;
    }
    Ok(())
}

fn skip_entries(r: &mut &[u8]) -> (res: Result<(), ReadingError>)
    ensures
        match drop_entries(old(r)@) {
            Some(rest) => res is Ok && final(r)@ == rest,
            None => res is Err,
        },
        res is Ok ==> final(r)@.len() <= old(r)@.len(),
    decreases old(r)@.len(), 0int,
{
    loop
        invariant
            drop_entries(old(r)@) == drop_entries(r@),
            r@.len() <= old(r)@.len(),
        decreases r@.len(),
    {
        let before: usize = r.len();
        let kind: u8 = wire::get_u8(r)?;
        if kind == TAG_END {
            return Ok(());
        }
        skip_text(r)?;
        skip_payload(kind, r)?;
        if r.len() >= before {
            return Err(ReadingError::Malformed);
        }
    }
}

// --- tags -----------------------------------------------------------------------

/// The mathematical form of a tag.
#[verifier::ext_equal]
pub struct Tag {
    pub kind: u8,
    pub payload: Seq<u8>,
}

/// The mathematical form of a compound's entry.
#[verifier::ext_equal]
pub struct Entry {
    pub name: Seq<u8>,
    pub tag: Tag,
}

pub struct NbtTag {
    pub kind: u8,
    pub payload: Vec<u8>,
}

pub struct NbtEntry {
    pub name: Vec<u8>,
    pub tag: NbtTag,
}

pub struct NbtCompound {
    pub entries: Vec<NbtEntry>,
}

impl View for NbtTag {
    type V = Tag;

    open spec fn view(&self) -> Tag {
        Tag { kind: self.kind, payload: self.payload@ }
    }
}

impl View for NbtEntry {
    type V = Entry;

    open spec fn view(&self) -> Entry {
        Entry { name: self.name@, tag: self.tag@ }
    }
}

impl View for NbtCompound {
    type V = Seq<Entry>;

    open spec fn view(&self) -> Seq<Entry> {
        Seq::new(self.entries@.len(), |i: int| self.entries@[i]@)
    }
}

/// The views of a list of tags.
pub open spec fn tag_views(tags: Seq<NbtTag>) -> Seq<Tag> {
    Seq::new(tags.len(), |i: int| tags[i]@)
}

impl NbtTag {
    pub fn copy(&self) -> (res: NbtTag)
        ensures
            res@ == self@,
    {
        NbtTag { kind: self.kind, payload: self.payload.clone() }
    }
}

/// One payload of the given kind, cut off the front.
pub open spec fn take_payload(kind: u8, s: Seq<u8>) -> Option<(Tag, Seq<u8>)> {
    match drop_payload(kind, s) {
        Some(rest) => Some((Tag { kind, payload: s.take(s.len() - rest.len()) }, rest)),
        None => None,
    }
}

pub fn get_payload(kind: u8, r: &mut &[u8]) -> (res: Result<NbtTag, ReadingError>)
    ensures
        match take_payload(kind, old(r)@) {
            Some((value, rest)) => res is Ok && res->Ok_0@ == value && final(r)@ == rest,
            None => res is Err,
        },
        res is Ok ==> final(r)@.len() <= old(r)@.len(),
{
    let source: &[u8] = *r;
    skip_payload(kind, r)?;
    let payload: Vec<u8> = slice_to_vec(slice_subrange(source, 0, source.len() - r.len()));
    Ok(NbtTag { kind, payload })
}

/// A tag on its own: its kind, a name where the form has one, its payload. The
/// end mark alone stands for no tag.
pub open spec fn take_nbt(s: Seq<u8>, named: bool) -> Option<(Option<Tag>, Seq<u8>)> {
    if s.len() == 0 {
        None
    } else if s[0] == TAG_END {
        Some((None, s.skip(1)))
    } else {
        let body = if named {
            drop_text(s.skip(1))
        } else {
            Some(s.skip(1))
        };
        match body {
            Some(t) => match take_payload(s[0], t) {
                Some((tag, rest)) => Some((Some(tag), rest)),
                None => None,
            },
            None => None,
        }
    }
}

/// The bytes of a tag on its own; a name, where the form has one, is empty.
pub open spec fn enc_nbt(tag: Option<Tag>, named: bool) -> Seq<u8> {
    match tag {
        None => seq![TAG_END],
        Some(tag) => seq![tag.kind] + (if named {
            seq![0u8, 0u8]
        } else {
            seq![]
        }) + tag.payload,
    }
}

pub open spec fn tag_opt(tag: Option<NbtTag>) -> Option<Tag> {
    match tag {
        Some(t) => Some(t@),
        None => None,
    }
}

pub fn get_nbt(r: &mut &[u8], named: bool) -> (res: Result<Option<NbtTag>, ReadingError>)
    ensures
        match take_nbt(old(r)@, named) {
            Some((value, rest)) => res is Ok && tag_opt(res->Ok_0) == value && final(r)@ == rest,
            None => res is Err,
        },
        res is Ok ==> final(r)@.len() <= old(r)@.len(),
{
    let kind: u8 = wire::get_u8(r)?;
    if kind == TAG_END {
        return Ok(None);
    }
    if named {
        skip_text(r)?;
    }
    let tag: NbtTag = get_payload(kind, r)?;
    Ok(Some(tag))
}

pub fn write_nbt(out: &mut Vec<u8>, tag: &NbtTag, named: bool)
    ensures
        final(out)@ == old(out)@ + enc_nbt(Some(tag@), named),
{
    out.push(tag.kind);
    if named {
        out.push(0);
        out.push(0);
    }
    wire::write_bytes(out, tag.payload.as_slice());
}

// --- text payloads -----------------------------------------------------------------

/// Three bytes of a code unit, the way a text field spells it.
pub open spec fn unit_bytes(unit: int) -> Seq<u8> {
    seq![(0xe0 + unit / 0x1000) as u8, (0x80 + unit / 0x40 % 0x40) as u8, (0x80 + unit % 0x40) as u8]
}

/// The number of a scalar above the basic plane, counted from there, by its four
/// bytes of UTF-8.
pub open spec fn supplementary(a: u8, b: u8, c: u8, d: u8) -> int {
    (a - 0xf0) * 0x4_0000 + (b - 0x80) * 0x1000 + (c - 0x80) * 0x40 + (d - 0x80) - 0x1_0000
}

/// Whether four bytes are a scalar above the basic plane.
pub open spec fn is_supplementary(s: Seq<u8>) -> bool {
    &&& s.len() >= 4
    &&& 0xf0 <= s[0] <= 0xf4
    &&& 0x80 <= s[1] < 0xc0
    &&& 0x80 <= s[2] < 0xc0
    &&& 0x80 <= s[3] < 0xc0
    &&& 0 <= supplementary(s[0], s[1], s[2], s[3]) < 0x10_0000
}

/// UTF-8 as a text field spells it: zero in two bytes, and a scalar above the
/// basic plane as two code units.
pub open spec fn java(text: Seq<u8>) -> Seq<u8>
    decreases text.len(),
{
    if text.len() == 0 {
        seq![]
    } else if text[0] == 0 {
        seq![0xc0u8, 0x80u8] + java(text.skip(1))
    } else if is_supplementary(text) {
        let n = supplementary(text[0], text[1], text[2], text[3]);
        unit_bytes(0xd800 + n / 0x400) + unit_bytes(0xdc00 + n % 0x400) + java(text.skip(4))
    } else {
        seq![text[0]] + java(text.skip(1))
    }
}

/// Whether six bytes are two code units of a scalar above the basic plane.
pub open spec fn is_surrogate_pair(s: Seq<u8>) -> bool {
    &&& s.len() >= 6
    &&& s[0] == 0xed
    &&& 0xa0 <= s[1] < 0xb0
    &&& 0x80 <= s[2] < 0xc0
    &&& s[3] == 0xed
    &&& 0xb0 <= s[4] < 0xc0
    &&& 0x80 <= s[5] < 0xc0
}

/// A scalar above the basic plane in UTF-8, by its number counted from there.
pub open spec fn supplementary_bytes(n: int) -> Seq<u8> {
    let scalar = n + 0x1_0000;
    seq![
        (0xf0 + scalar / 0x4_0000) as u8,
        (0x80 + scalar / 0x1000 % 0x40) as u8,
        (0x80 + scalar / 0x40 % 0x40) as u8,
        (0x80 + scalar % 0x40) as u8,
    ]
}

pub open spec fn pair_number(s: Seq<u8>) -> int {
    ((s[1] - 0xa0) * 0x40 + (s[2] - 0x80)) * 0x400 + (s[4] - 0xb0) * 0x40 + (s[5] - 0x80)
}

/// What a text field spells, as UTF-8.
pub open spec fn unjava(field: Seq<u8>) -> Seq<u8>
    decreases field.len(),
{
    if field.len() == 0 {
        seq![]
    } else if field.len() >= 2 && field[0] == 0xc0 && field[1] == 0x80 {
        seq![0u8] + unjava(field.skip(2))
    } else if is_surrogate_pair(field) {
        supplementary_bytes(pair_number(field)) + unjava(field.skip(6))
    } else {
        seq![field[0]] + unjava(field.skip(1))
    }
}

fn push_unit(out: &mut Vec<u8>, unit: u32)
    requires
        unit < 0x1_0000,
    ensures
        final(out)@ == old(out)@ + unit_bytes(unit as int),
{
    out.push((0xe0 + unit / 0x1000) as u8);
    out.push((0x80 + unit / 0x40 % 0x40) as u8);
    out.push((0x80 + unit % 0x40) as u8);
}

/// Spells UTF-8 the way a text field does.
#[verifier::loop_isolation(false)]
pub fn to_java(text: &[u8]) -> (res: Vec<u8>)
    ensures
        res@ == java(text@),
{
    let mut out: Vec<u8> = Vec::new();
    let mut i: usize = 0;
    assert(text@.skip(0) =~= text@);
    while i < text.len()
        invariant
            i <= text.len(),
            out@ + java(text@.skip(i as int)) == java(text@),
        decreases text.len() - i,
    {
        let ghost here = text@.skip(i as int);
        let ghost before = out@;
        let a: u8 = text[i];
        if a == 0 {
            out.push(0xc0);
            out.push(0x80);
            assert(here.skip(1) =~= text@.skip(i + 1));
            assert(before + (seq![0xc0u8, 0x80u8] + java(here.skip(1))) =~= out@ + java(here.skip(1)));
            i = i + 1;
            continue;
        }
        if text.len() - i >= 4 && 0xf0 <= a && a <= 0xf4 {
            let b: u8 = text[i + 1];
            let c: u8 = text[i + 2];
            let d: u8 = text[i + 3];
            assert(here[1] == b && here[2] == c && here[3] == d);
            if 0x80 <= b && b < 0xc0 && 0x80 <= c && c < 0xc0 && 0x80 <= d && d < 0xc0 {
                let n: i32 = (a as i32 - 0xf0) * 0x4_0000 + (b as i32 - 0x80) * 0x1000 + (c as i32 - 0x80)
                    * 0x40 + (d as i32 - 0x80) - 0x1_0000;
                if 0 <= n && n < 0x10_0000 {
                    push_unit(&mut out, 0xd800 + n as u32 / 0x400);
                    push_unit(&mut out, 0xdc00 + n as u32 % 0x400);
                    proof {
                        assert(here.skip(4) =~= text@.skip(i + 4));
                        let high = unit_bytes(0xd800 + n / 0x400);
                        let low = unit_bytes(0xdc00 + n % 0x400);
                        assert(before + (high + low + java(here.skip(4))) =~= out@ + java(here.skip(4)));
                    }
                    i = i + 4;
                    continue;
                }
            }
        }
        out.push(a);
        assert(here.skip(1) =~= text@.skip(i + 1));
        assert(before + (seq![a] + java(here.skip(1))) =~= out@ + java(here.skip(1)));
        i = i + 1;
    }
    assert(out@ + java(text@.skip(i as int)) =~= out@);
    out
}

/// Spells what a text field holds in UTF-8.
#[verifier::loop_isolation(false)]
pub fn from_java(field: &[u8]) -> (res: Vec<u8>)
    ensures
        res@ == unjava(field@),
{
    let mut out: Vec<u8> = Vec::new();
    let mut i: usize = 0;
    assert(field@.skip(0) =~= field@);
    while i < field.len()
        invariant
            i <= field.len(),
            out@ + unjava(field@.skip(i as int)) == unjava(field@),
        decreases field.len() - i,
    {
        let ghost here = field@.skip(i as int);
        let ghost before = out@;
        let a: u8 = field[i];
        if field.len() - i >= 2 && a == 0xc0 && field[i + 1] == 0x80 {
            out.push(0);
            assert(here.skip(2) =~= field@.skip(i + 2));
            assert(before + (seq![0u8] + unjava(here.skip(2))) =~= out@ + unjava(here.skip(2)));
            i = i + 2;
            continue;
        }
        if field.len() - i >= 6 && a == 0xed {
            let b: u8 = field[i + 1];
            let c: u8 = field[i + 2];
            let d: u8 = field[i + 3];
            let e: u8 = field[i + 4];
            let f: u8 = field[i + 5];
            assert(here[1] == b && here[2] == c && here[3] == d && here[4] == e && here[5] == f);
            if 0xa0 <= b && b < 0xb0 && 0x80 <= c && c < 0xc0 && d == 0xed && 0xb0 <= e && e < 0xc0 && 0x80
                <= f && f < 0xc0 {
                let n: u32 = ((b as u32 - 0xa0) * 0x40 + (c as u32 - 0x80)) * 0x400 + (e as u32 - 0xb0) * 0x40
                    + (f as u32 - 0x80);
                let scalar: u32 = n + 0x1_0000;
                out.push((0xf0 + scalar / 0x4_0000) as u8);
                out.push((0x80 + scalar / 0x1000 % 0x40) as u8);
                out.push((0x80 + scalar / 0x40 % 0x40) as u8);
                out.push((0x80 + scalar % 0x40) as u8);
                proof {
                    assert(here.skip(6) =~= field@.skip(i + 6));
                    assert(n == pair_number(here));
                    assert(before + (supplementary_bytes(n as int) + unjava(here.skip(6))) =~= out@ + unjava(
                        here.skip(6),
                    ));
                }
                i = i + 6;
                continue;
            }
        }
        out.push(a);
        assert(here.skip(1) =~= field@.skip(i + 1));
        assert(before + (seq![a] + unjava(here.skip(1))) =~= out@ + unjava(here.skip(1)));
        i = i + 1;
    }
    assert(out@ + unjava(field@.skip(i as int)) =~= out@);
    out
}

/// A text field: its length in two bytes, then its bytes.
pub open spec fn enc_text(text: Seq<u8>) -> Seq<u8> {
    wire::enc_u16((text.len() % 0x1_0000) as u16) + text
}

pub open spec fn take_text(s: Seq<u8>) -> Option<(Seq<u8>, Seq<u8>)> {
    match wire::take_u16(s) {
        Some((n, rest)) => wire::take_bytes(rest, n as int),
        None => None,
    }
}

pub fn write_text(out: &mut Vec<u8>, text: &[u8])
    ensures
        final(out)@ == old(out)@ + enc_text(text@),
{
    wire::write_u16(out, (text.len() % 0x1_0000) as u16);
    wire::write_bytes(out, text);
}

pub fn get_text<'a>(r: &mut &'a [u8]) -> (res: Result<&'a [u8], ReadingError>)
    ensures
        match take_text(old(r)@) {
            Some((value, rest)) => res is Ok && res->Ok_0@ == value && final(r)@ == rest,
            None => res is Err,
        },
{
    let n: u16 = wire::get_u16(r)?;
    wire::get_bytes(r, n as usize)
}

/// A string, given as UTF-8.
pub open spec fn string_tag(text: Seq<u8>) -> Tag {
    Tag { kind: TAG_STRING, payload: enc_text(java(text)) }
}

pub open spec fn byte_tag(value: u8) -> Tag {
    Tag { kind: TAG_BYTE, payload: seq![value] }
}

pub open spec fn bool_tag(value: bool) -> Tag {
    byte_tag(if value { 1 } else { 0 })
}

pub open spec fn short_tag(value: u16) -> Tag {
    Tag { kind: TAG_SHORT, payload: wire::enc_u16(value) }
}

pub open spec fn int_tag(value: i32) -> Tag {
    Tag { kind: TAG_INT, payload: wire::enc_i32(value) }
}

pub open spec fn long_tag(bits: u64) -> Tag {
    Tag { kind: TAG_LONG, payload: wire::enc_u64(bits) }
}

pub open spec fn double_tag(bits: u64) -> Tag {
    Tag { kind: TAG_DOUBLE, payload: wire::enc_u64(bits) }
}

pub fn new_string_tag(text: &[u8]) -> (tag: NbtTag)
    ensures
        tag@ == string_tag(text@),
{
    let mut payload: Vec<u8> = Vec::new();
    write_text(&mut payload, to_java(text).as_slice());
    NbtTag { kind: TAG_STRING, payload }
}

pub fn new_byte_tag(value: u8) -> (tag: NbtTag)
    ensures
        tag@ == byte_tag(value),
{
    let mut payload: Vec<u8> = Vec::new();
    payload.push(value);
    NbtTag { kind: TAG_BYTE, payload }
}

pub fn new_bool_tag(value: bool) -> (tag: NbtTag)
    ensures
        tag@ == bool_tag(value),
{
    new_byte_tag(if value { 1 } else { 0 })
}

pub fn new_short_tag(value: u16) -> (tag: NbtTag)
    ensures
        tag@ == short_tag(value),
{
    let mut payload: Vec<u8> = Vec::new();
    wire::write_u16(&mut payload, value);
    NbtTag { kind: TAG_SHORT, payload }
}

pub fn new_int_tag(value: i32) -> (tag: NbtTag)
    ensures
        tag@ == int_tag(value),
{
    let mut payload: Vec<u8> = Vec::new();
    wire::write_i32(&mut payload, value);
    NbtTag { kind: TAG_INT, payload }
}

pub fn new_long_tag(bits: u64) -> (tag: NbtTag)
    ensures
        tag@ == long_tag(bits),
{
    let mut payload: Vec<u8> = Vec::new();
    wire::write_u64(&mut payload, bits);
    NbtTag { kind: TAG_LONG, payload }
}

pub fn new_double_tag(bits: u64) -> (tag: NbtTag)
    ensures
        tag@ == double_tag(bits),
{
    let mut payload: Vec<u8> = Vec::new();
    wire::write_u64(&mut payload, bits);
    NbtTag { kind: TAG_DOUBLE, payload }
}


// --- compounds -----------------------------------------------------------------

/// Entry `i` is the first of that name.
pub open spec fn is_first(c: Seq<Entry>, name: Seq<u8>, i: int) -> bool {
    &&& 0 <= i < c.len()
    &&& c[i].name == name
    &&& forall|j: int| 0 <= j < i ==> (#[trigger] c[j]).name != name
}

pub open spec fn holds(c: Seq<Entry>, name: Seq<u8>) -> bool {
    exists|i: int| is_first(c, name, i)
}

pub open spec fn position(c: Seq<Entry>, name: Seq<u8>) -> int {
    choose|i: int| is_first(c, name, i)
}

/// The tag of that name.
pub open spec fn get(c: Seq<Entry>, name: Seq<u8>) -> Option<Tag> {
    if holds(c, name) {
        Some(c[position(c, name)].tag)
    } else {
        None
    }
}

/// The compound with `tag` under `name`, in the place of an earlier tag of that
/// name or else at the end.
pub open spec fn put(c: Seq<Entry>, name: Seq<u8>, tag: Tag) -> Seq<Entry> {
    if holds(c, name) {
        c.update(position(c, name), Entry { name, tag })
    } else {
        c.push(Entry { name, tag })
    }
}

pub open spec fn remove(c: Seq<Entry>, name: Seq<u8>) -> Seq<Entry> {
    if holds(c, name) {
        c.remove(position(c, name))
    } else {
        c
    }
}

pub open spec fn enc_entry(e: Entry) -> Seq<u8> {
    seq![e.tag.kind] + enc_text(e.name) + e.tag.payload
}

pub open spec fn enc_entries(c: Seq<Entry>) -> Seq<u8>
    decreases c.len(),
{
    if c.len() == 0 {
        seq![]
    } else {
        enc_entries(c.drop_last()) + enc_entry(c.last())
    }
}

pub open spec fn compound_tag(c: Seq<Entry>) -> Tag {
    Tag { kind: TAG_COMPOUND, payload: enc_entries(c) + seq![TAG_END] }
}

/// The named tags up to the end mark, put one after the other on `c`.
pub open spec fn take_entries(c: Seq<Entry>, s: Seq<u8>) -> Option<(Seq<Entry>, Seq<u8>)>
    decreases s.len(),
{
    if s.len() == 0 {
        None
    } else if s[0] == TAG_END {
        Some((c, s.skip(1)))
    } else {
        match take_text(s.skip(1)) {
            Some((name, t)) => match take_payload(s[0], t) {
                Some((tag, rest)) => if rest.len() < s.len() {
                    take_entries(put(c, name, tag), rest)
                } else {
                    None
                },
                None => None,
            },
            None => None,
        }
    }
}

/// The compound that a tag is, if it is one.
pub open spec fn compound_of(tag: Tag) -> Option<Seq<Entry>> {
    if tag.kind == TAG_COMPOUND {
        match take_entries(seq![], tag.payload) {
            Some((c, rest)) => Some(c),
            None => None,
        }
    } else {
        None
    }
}

pub open spec fn compound_in(c: Seq<Entry>, name: Seq<u8>) -> Option<Seq<Entry>> {
    match get(c, name) {
        Some(tag) => compound_of(tag),
        None => None,
    }
}

pub open spec fn view_opt(c: Option<NbtCompound>) -> Option<Seq<Entry>> {
    match c {
        Some(c) => Some(c@),
        None => None,
    }
}

pub proof fn lemma_position(c: Seq<Entry>, name: Seq<u8>, i: int)
    requires
        is_first(c, name, i),
    ensures
        holds(c, name),
        position(c, name) == i,
{
    let p = position(c, name);
    assert(is_first(c, name, p));
    if p < i {
        assert(c[p].name != name);
    }
    if i < p {
        assert(c[i].name != name);
    }
}

impl NbtCompound {
    pub fn new() -> (res: NbtCompound)
        ensures
            res@ == Seq::<Entry>::empty(),
    {
        NbtCompound { entries: Vec::new() }
    }

    pub fn is_empty(&self) -> (res: bool)
        ensures
            res == (self@.len() == 0),
    {
        self.entries.len() == 0
    }

    fn find(&self, name: &[u8]) -> (res: Option<usize>)
        ensures
            match res {
                Some(i) => holds(self@, name@) && position(self@, name@) == i && i < self.entries@.len(),
                None => !holds(self@, name@),
            },
    {
        let mut i: usize = 0;
        while i < self.entries.len()
            invariant
                i <= self.entries.len(),
                forall|j: int| 0 <= j < i ==> (#[trigger] self@[j]).name != name@,
            decreases self.entries.len() - i,
        {
            if wire::same_bytes(self.entries[i].name.as_slice(), name) {
                proof {
                    assert(self@[i as int].name == name@);
                    lemma_position(self@, name@, i as int);
                }
                return Some(i);
            }
            assert(self@[i as int].name != name@);
            i = i + 1;
        }
        None
    }

    pub fn get(&self, name: &[u8]) -> (res: Option<&NbtTag>)
        ensures
            match res {
                Some(tag) => get(self@, name@) == Some(tag@),
                None => get(self@, name@) is None,
            },
    {
        match self.find(name) {
            Some(i) => {
                assert(self@[i as int] == self.entries@[i as int]@);
                Some(&self.entries[i].tag)
            },
            None => None,
        }
    }

    pub fn put(&mut self, name: &[u8], tag: NbtTag)
        ensures
            final(self)@ == put(old(self)@, name@, tag@),
    {
        let entry: NbtEntry = NbtEntry { name: slice_to_vec(name), tag };
        match self.find(name) {
            Some(i) => {
                self.entries.set(i, entry);
            },
            None => {
                self.entries.push(entry);
            },
        }
    }

    pub fn remove(&mut self, name: &[u8])
        ensures
            final(self)@ == remove(old(self)@, name@),
    {
        match self.find(name) {
            Some(i) => {
                self.entries.remove(i);
            },
            None => {},
        }
    }

    pub fn copy(&self) -> (res: NbtCompound)
        ensures
            res@ == self@,
    {
        let mut entries: Vec<NbtEntry> = Vec::new();
        let mut i: usize = 0;
        while i < self.entries.len()
            invariant
                i <= self.entries.len(),
                entries@.len() == i,
                forall|j: int| 0 <= j < i ==> (#[trigger] entries@[j])@ == self.entries@[j]@,
            decreases self.entries.len() - i,
        {
            let e: &NbtEntry = &self.entries[i];
            entries.push(NbtEntry { name: e.name.clone(), tag: e.tag.copy() });
            i = i + 1;
        }
        let res: NbtCompound = NbtCompound { entries };
        assert(res@ =~= self@);
        res
    }

    pub fn put_string(&mut self, name: &[u8], text: &[u8])
        ensures
            final(self)@ == put(old(self)@, name@, string_tag(text@)),
    {
        self.put(name, new_string_tag(text));
    }

    pub fn put_int(&mut self, name: &[u8], value: i32)
        ensures
            final(self)@ == put(old(self)@, name@, int_tag(value)),
    {
        self.put(name, new_int_tag(value));
    }

    pub fn put_byte(&mut self, name: &[u8], value: u8)
        ensures
            final(self)@ == put(old(self)@, name@, byte_tag(value)),
    {
        self.put(name, new_byte_tag(value));
    }

    pub fn put_bool(&mut self, name: &[u8], value: bool)
        ensures
            final(self)@ == put(old(self)@, name@, bool_tag(value)),
    {
        self.put(name, new_bool_tag(value));
    }

    pub fn put_list(&mut self, name: &[u8], tags: &Vec<NbtTag>)
        ensures
            final(self)@ == put(old(self)@, name@, list_tag(tag_views(tags@))),
    {
        self.put(name, new_list_tag(tags));
    }

    pub fn put_compound(&mut self, name: &[u8], c: &NbtCompound)
        ensures
            final(self)@ == put(old(self)@, name@, compound_tag(c@)),
    {
        self.put(name, c.to_tag());
    }

    /// The compound as a tag.
    pub fn to_tag(&self) -> (tag: NbtTag)
        ensures
            tag@ == compound_tag(self@),
    {
        let mut payload: Vec<u8> = Vec::new();
        let mut i: usize = 0;
        assert(self@.take(0) =~= seq![]);
        while i < self.entries.len()
            invariant
                i <= self.entries.len(),
                payload@ == enc_entries(self@.take(i as int)),
            decreases self.entries.len() - i,
        {
            let e: &NbtEntry = &self.entries[i];
            payload.push(e.tag.kind);
            write_text(&mut payload, e.name.as_slice());
            wire::write_bytes(&mut payload, e.tag.payload.as_slice());
            proof {
                let next = self@.take(i + 1);
                assert(next.drop_last() =~= self@.take(i as int));
                assert(next.last() == e@);
                assert(payload@ =~= enc_entries(next.drop_last()) + enc_entry(next.last()));
            }
            i = i + 1;
        }
        assert(self@.take(self@.len() as int) =~= self@);
        payload.push(TAG_END);
        NbtTag { kind: TAG_COMPOUND, payload }
    }

    pub fn get_compound(&self, name: &[u8]) -> (res: Option<NbtCompound>)
        ensures
            view_opt(res) == compound_in(self@, name@),
    {
        match self.get(name) {
            Some(tag) => tag.extract_compound(),
            None => None,
        }
    }

    pub fn get_string(&self, name: &[u8]) -> (res: Option<Vec<u8>>)
        ensures
            bytes_opt(res) == string_in(self@, name@),
    {
        match self.get(name) {
            Some(tag) => tag.extract_string(),
            None => None,
        }
    }

    pub fn get_list(&self, name: &[u8]) -> (res: Option<Vec<NbtTag>>)
        ensures
            tags_opt(res) == list_in(self@, name@),
    {
        match self.get(name) {
            Some(tag) => tag.extract_list(),
            None => None,
        }
    }

    /// The value under `name`, if it is an int.
    pub fn get_int(&self, name: &[u8]) -> (res: Option<i32>)
        ensures
            res == int_in(self@, name@),
    {
        match self.get(name) {
            Some(tag) => if tag.kind == TAG_INT {
                let mut r: &[u8] = tag.payload.as_slice();
                match wire::get_i32(&mut r) {
                    Ok(v) => Some(v),
                    Err(_) => None,
                }
            } else {
                None
            },
            None => None,
        }
    }

    /// The value under `name` as a number, if it is a byte, a short, an int or a
    /// long that fits.
    pub fn get_number(&self, name: &[u8]) -> (res: Option<i32>)
        ensures
            res == number_in(self@, name@),
    {
        match self.get(name) {
            Some(tag) => tag.extract_int_like(),
            None => None,
        }
    }

    /// The value under `name` as a flag, if it is a byte.
    pub fn get_bool(&self, name: &[u8]) -> (res: Option<bool>)
        ensures
            res == bool_in(self@, name@),
    {
        match self.get(name) {
            Some(tag) => if tag.kind == TAG_BYTE && tag.payload.len() >= 1 {
                Some(tag.payload[0] != 0)
            } else {
                None
            },
            None => None,
        }
    }

    pub fn get_int_array(&self, name: &[u8]) -> (res: Option<Vec<i32>>)
        ensures
            words_opt(res) == int_array_in(self@, name@),
    {
        match self.get(name) {
            Some(tag) => tag.extract_int_array(),
            None => None,
        }
    }
}

/// Reads the named tags up to the end mark.
pub fn get_entries(r: &mut &[u8]) -> (res: Result<NbtCompound, ReadingError>)
    ensures
        match take_entries(seq![], old(r)@) {
            Some((c, rest)) => res is Ok && res->Ok_0@ == c && final(r)@ == rest,
            None => res is Err,
        },
{
    let mut c: NbtCompound = NbtCompound::new();
    loop
        invariant
            take_entries(seq![], old(r)@) == take_entries(c@, r@),
        decreases r@.len(),
    {
        let before: usize = r.len();
        let kind: u8 = wire::get_u8(r)?;
        if kind == TAG_END {
            return Ok(c);
        }
        let name: &[u8] = get_text(r)?;
        let tag: NbtTag = get_payload(kind, r)?;
        if r.len() >= before {
            return Err(ReadingError::Malformed);
        }
        c.put(name, tag);
    }
}

// --- what a tag holds ---------------------------------------------------------------

pub open spec fn bytes_opt(v: Option<Vec<u8>>) -> Option<Seq<u8>> {
    match v {
        Some(v) => Some(v@),
        None => None,
    }
}

pub open spec fn tags_opt(v: Option<Vec<NbtTag>>) -> Option<Seq<Tag>> {
    match v {
        Some(v) => Some(tag_views(v@)),
        None => None,
    }
}

pub open spec fn words_opt(v: Option<Vec<i32>>) -> Option<Seq<i32>> {
    match v {
        Some(v) => Some(v@),
        None => None,
    }
}

pub open spec fn i8_of(b: u8) -> i32 {
    if b < 128 {
        b as i32
    } else {
        (b - 256) as i32
    }
}

pub open spec fn i16_of(n: u16) -> i32 {
    if n < 0x8000 {
        n as i32
    } else {
        (n - 0x1_0000) as i32
    }
}

/// A number that a client may have narrowed to a byte or a short.
pub open spec fn int_like(tag: Tag) -> Option<i32> {
    if tag.kind == TAG_BYTE {
        match wire::take_u8(tag.payload) {
            Some((b, rest)) => Some(i8_of(b)),
            None => None,
        }
    } else if tag.kind == TAG_SHORT {
        match wire::take_u16(tag.payload) {
            Some((n, rest)) => Some(i16_of(n)),
            None => None,
        }
    } else if tag.kind == TAG_INT {
        match wire::take_i32(tag.payload) {
            Some((n, rest)) => Some(n),
            None => None,
        }
    } else if tag.kind == TAG_LONG {
        match wire::take_i64(tag.payload) {
            Some((n, rest)) => if i32::MIN <= n <= i32::MAX {
                Some(n as i32)
            } else {
                None
            },
            None => None,
        }
    } else {
        None
    }
}

/// What a string says, as UTF-8.
pub open spec fn string_of(tag: Tag) -> Option<Seq<u8>> {
    if tag.kind == TAG_STRING {
        match take_text(tag.payload) {
            Some((field, rest)) => Some(unjava(field)),
            None => None,
        }
    } else {
        None
    }
}

pub open spec fn number_in(c: Seq<Entry>, name: Seq<u8>) -> Option<i32> {
    match get(c, name) {
        Some(tag) => int_like(tag),
        None => None,
    }
}

pub open spec fn int_in(c: Seq<Entry>, name: Seq<u8>) -> Option<i32> {
    match get(c, name) {
        Some(tag) => if tag.kind == TAG_INT {
            match wire::take_i32(tag.payload) {
                Some((n, rest)) => Some(n),
                None => None,
            }
        } else {
            None
        },
        None => None,
    }
}

pub open spec fn bool_in(c: Seq<Entry>, name: Seq<u8>) -> Option<bool> {
    match get(c, name) {
        Some(tag) => if tag.kind == TAG_BYTE && tag.payload.len() >= 1 {
            Some(tag.payload[0] != 0)
        } else {
            None
        },
        None => None,
    }
}

pub open spec fn string_in(c: Seq<Entry>, name: Seq<u8>) -> Option<Seq<u8>> {
    match get(c, name) {
        Some(tag) => string_of(tag),
        None => None,
    }
}

/// `n` payloads of one kind, put behind `tags`.
pub open spec fn take_tags(tags: Seq<Tag>, kind: u8, n: nat, s: Seq<u8>) -> Option<(Seq<Tag>, Seq<u8>)>
    decreases n,
{
    if n == 0 {
        Some((tags, s))
    } else {
        match take_payload(kind, s) {
            Some((tag, rest)) => take_tags(tags.push(tag), kind, (n - 1) as nat, rest),
            None => None,
        }
    }
}

/// The elements of a list.
pub open spec fn list_of(tag: Tag) -> Option<Seq<Tag>> {
    if tag.kind == TAG_LIST && tag.payload.len() >= 5 {
        match wire::take_i32(tag.payload.skip(1)) {
            Some((n, rest)) => if n < 0 {
                None
            } else {
                match take_tags(seq![], tag.payload[0], n as nat, rest) {
                    Some((tags, rest)) => Some(tags),
                    None => None,
                }
            },
            None => None,
        }
    } else {
        None
    }
}

pub open spec fn list_in(c: Seq<Entry>, name: Seq<u8>) -> Option<Seq<Tag>> {
    match get(c, name) {
        Some(tag) => list_of(tag),
        None => None,
    }
}

/// The payloads of a list of tags, one after the other.
pub open spec fn enc_payloads(tags: Seq<Tag>) -> Seq<u8>
    decreases tags.len(),
{
    if tags.len() == 0 {
        seq![]
    } else {
        enc_payloads(tags.drop_last()) + tags.last().payload
    }
}

/// A list; the kind of its first element is the kind of all.
pub open spec fn list_tag(tags: Seq<Tag>) -> Tag {
    Tag {
        kind: TAG_LIST,
        payload: seq![if tags.len() == 0 { TAG_END } else { tags[0].kind }] + wire::enc_u32(
            (tags.len() % 0x1_0000_0000) as u32,
        ) + enc_payloads(tags),
    }
}

pub open spec fn take_words(words: Seq<i32>, n: nat, s: Seq<u8>) -> Option<(Seq<i32>, Seq<u8>)>
    decreases n,
{
    if n == 0 {
        Some((words, s))
    } else {
        match wire::take_i32(s) {
            Some((word, rest)) => take_words(words.push(word), (n - 1) as nat, rest),
            None => None,
        }
    }
}

pub open spec fn int_array_of(tag: Tag) -> Option<Seq<i32>> {
    if tag.kind == TAG_INT_ARRAY {
        match wire::take_i32(tag.payload) {
            Some((n, rest)) => if n < 0 {
                None
            } else {
                match take_words(seq![], n as nat, rest) {
                    Some((words, rest)) => Some(words),
                    None => None,
                }
            },
            None => None,
        }
    } else {
        None
    }
}

pub open spec fn int_array_in(c: Seq<Entry>, name: Seq<u8>) -> Option<Seq<i32>> {
    match get(c, name) {
        Some(tag) => int_array_of(tag),
        None => None,
    }
}

/// An int array of four words, the shape of an identifier.
pub open spec fn four_words_tag(a: i32, b: i32, c: i32, d: i32) -> Tag {
    Tag {
        kind: TAG_INT_ARRAY,
        payload: wire::enc_i32(4) + wire::enc_i32(a) + wire::enc_i32(b) + wire::enc_i32(c) + wire::enc_i32(d),
    }
}

/// Bytes as an array.
pub open spec fn byte_array_tag(bytes: Seq<u8>) -> Tag {
    Tag {
        kind: TAG_BYTE_ARRAY,
        payload: wire::enc_u32((bytes.len() % 0x1_0000_0000) as u32) + bytes,
    }
}

pub open spec fn enc_words(words: Seq<i32>) -> Seq<u8>
    decreases words.len(),
{
    if words.len() == 0 {
        seq![]
    } else {
        enc_words(words.drop_last()) + wire::enc_u32(wire::bits_of_i32(words.last()))
    }
}

/// Ints as an array.
pub open spec fn int_array_tag(words: Seq<i32>) -> Tag {
    Tag {
        kind: TAG_INT_ARRAY,
        payload: wire::enc_u32((words.len() % 0x1_0000_0000) as u32) + enc_words(words),
    }
}

pub fn new_byte_array_tag(bytes: &[u8]) -> (tag: NbtTag)
    ensures
        tag@ == byte_array_tag(bytes@),
{
    let mut payload: Vec<u8> = Vec::new();
    wire::write_u32(&mut payload, (bytes.len() as u64 % 0x1_0000_0000) as u32);
    wire::write_bytes(&mut payload, bytes);
    assert(payload@ =~= byte_array_tag(bytes@).payload);
    NbtTag { kind: TAG_BYTE_ARRAY, payload }
}

#[verifier::loop_isolation(false)]
pub fn new_int_array_tag(words: &Vec<i32>) -> (tag: NbtTag)
    ensures
        tag@ == int_array_tag(words@),
{
    let mut payload: Vec<u8> = Vec::new();
    wire::write_u32(&mut payload, (words.len() as u64 % 0x1_0000_0000) as u32);
    let ghost head = payload@;
    assert(head =~= wire::enc_u32((words@.len() % 0x1_0000_0000) as u32));
    let mut i: usize = 0;
    assert(words@.take(0) =~= seq![]);
    while i < words.len()
        invariant
            i <= words.len(),
            payload@ == head + enc_words(words@.take(i as int)),
        decreases words.len() - i,
    {
        wire::write_u32(&mut payload, wire::i32_to_bits(words[i]));
        let ghost next = words@.take(i + 1);
        assert(next.drop_last() =~= words@.take(i as int));
        assert(payload@ =~= head + enc_words(next));
        i = i + 1;
    }
    assert(words@.take(words@.len() as int) =~= words@);
    NbtTag { kind: TAG_INT_ARRAY, payload }
}

pub fn new_four_words_tag(a: i32, b: i32, c: i32, d: i32) -> (tag: NbtTag)
    ensures
        tag@ == four_words_tag(a, b, c, d),
{
    let mut payload: Vec<u8> = Vec::new();
    wire::write_i32(&mut payload, 4);
    wire::write_i32(&mut payload, a);
    wire::write_i32(&mut payload, b);
    wire::write_i32(&mut payload, c);
    wire::write_i32(&mut payload, d);
    NbtTag { kind: TAG_INT_ARRAY, payload }
}

pub fn new_list_tag(tags: &Vec<NbtTag>) -> (tag: NbtTag)
    ensures
        tag@ == list_tag(tag_views(tags@)),
{
    let mut payload: Vec<u8> = Vec::new();
    payload.push(if tags.len() == 0 { TAG_END } else { tags[0].kind });
    wire::write_u32(&mut payload, (tags.len() as u64 % 0x1_0000_0000) as u32);
    let ghost head = payload@;
    let mut i: usize = 0;
    assert(tag_views(tags@).take(0) =~= seq![]);
    while i < tags.len()
        invariant
            i <= tags.len(),
            payload@ == head + enc_payloads(tag_views(tags@).take(i as int)),
        decreases tags.len() - i,
    {
        wire::write_bytes(&mut payload, tags[i].payload.as_slice());
        proof {
            let next = tag_views(tags@).take(i + 1);
            assert(next.drop_last() =~= tag_views(tags@).take(i as int));
            assert(payload@ =~= head + enc_payloads(next));
        }
        i = i + 1;
    }
    assert(tag_views(tags@).take(tags@.len() as int) =~= tag_views(tags@));
    NbtTag { kind: TAG_LIST, payload }
}

impl NbtTag {
    pub fn extract_int_like(&self) -> (res: Option<i32>)
        ensures
            res == int_like(self@),
    {
        let mut r: &[u8] = self.payload.as_slice();
        if self.kind == TAG_BYTE {
            match wire::get_u8(&mut r) {
                Ok(b) => Some(if b < 128 { b as i32 } else { b as i32 - 256 }),
                Err(_) => None,
            }
        } else if self.kind == TAG_SHORT {
            match wire::get_u16(&mut r) {
                Ok(n) => Some(if n < 0x8000 { n as i32 } else { n as i32 - 0x1_0000 }),
                Err(_) => None,
            }
        } else if self.kind == TAG_INT {
            match wire::get_i32(&mut r) {
                Ok(n) => Some(n),
                Err(_) => None,
            }
        } else if self.kind == TAG_LONG {
            match wire::get_i64(&mut r) {
                Ok(n) => if -0x8000_0000 <= n && n <= 0x7fff_ffff {
                    Some(n as i32)
                } else {
                    None
                },
                Err(_) => None,
            }
        } else {
            None
        }
    }

    pub fn extract_string(&self) -> (res: Option<Vec<u8>>)
        ensures
            bytes_opt(res) == string_of(self@),
    {
        if self.kind == TAG_STRING {
            let mut r: &[u8] = self.payload.as_slice();
            match get_text(&mut r) {
                Ok(field) => Some(from_java(field)),
                Err(_) => None,
            }
        } else {
            None
        }
    }

    pub fn extract_compound(&self) -> (res: Option<NbtCompound>)
        ensures
            view_opt(res) == compound_of(self@),
    {
        if self.kind == TAG_COMPOUND {
            let mut r: &[u8] = self.payload.as_slice();
            match get_entries(&mut r) {
                Ok(c) => Some(c),
                Err(_) => None,
            }
        } else {
            None
        }
    }

    #[verifier::loop_isolation(false)]
    pub fn extract_list(&self) -> (res: Option<Vec<NbtTag>>)
        ensures
            tags_opt(res) == list_of(self@),
    {
        if self.kind != TAG_LIST || self.payload.len() < 5 {
            return None;
        }
        let mut r: &[u8] = self.payload.as_slice();
        let kind: u8 = match wire::get_u8(&mut r) {
            Ok(kind) => kind,
            Err(_) => {
                return None;
            },
        };
        let n: i32 = match wire::get_i32(&mut r) {
            Ok(n) => n,
            Err(_) => {
                return None;
            },
        };
        if n < 0 {
            return None;
        }
        let ghost start = r@;
        let mut tags: Vec<NbtTag> = Vec::new();
        let mut left: i32 = n;
        assert(tag_views(tags@) =~= seq![]);
        while left > 0
            invariant
                0 <= left <= n,
                take_tags(seq![], kind, n as nat, start) == take_tags(tag_views(tags@), kind, left as nat, r@),
            decreases left,
        {
            let ghost before = tag_views(tags@);
            match get_payload(kind, &mut r) {
                Ok(tag) => {
                    tags.push(tag);
                    assert(tag_views(tags@) =~= before.push(tag@));
                },
                Err(_) => {
                    return None;
                },
            }
            left = left - 1;
        }
        Some(tags)
    }

    #[verifier::loop_isolation(false)]
    pub fn extract_int_array(&self) -> (res: Option<Vec<i32>>)
        ensures
            words_opt(res) == int_array_of(self@),
    {
        if self.kind != TAG_INT_ARRAY {
            return None;
        }
        let mut r: &[u8] = self.payload.as_slice();
        let n: i32 = match wire::get_i32(&mut r) {
            Ok(n) => n,
            Err(_) => {
                return None;
            },
        };
        if n < 0 {
            return None;
        }
        let ghost start = r@;
        let mut words: Vec<i32> = Vec::new();
        let mut left: i32 = n;
        while left > 0
            invariant
                0 <= left <= n,
                take_words(seq![], n as nat, start) == take_words(words@, left as nat, r@),
            decreases left,
        {
            match wire::get_i32(&mut r) {
                Ok(word) => {
                    words.push(word);
                },
                Err(_) => {
                    return None;
                },
            }
            left = left - 1;
        }
        Some(words)
    }
}

// --- laws -----------------------------------------------------------------------------------

/// Bytes behind a payload do not change where it ends.
pub proof fn lemma_payload_extends(kind: u8, s: Seq<u8>, more: Seq<u8>)
    ensures
        drop_payload(kind, s) matches Some(rest) ==> drop_payload(kind, s + more) == Some(rest + more),
    decreases s.len(), 1int,
{
    if let Some(rest) = drop_payload(kind, s) {
        if kind == TAG_LIST {
            let (n, behind) = wire::take_i32(s.skip(1)).unwrap();
            assert((s + more).skip(1) =~= s.skip(1) + more);
            assert((s + more).skip(5) =~= s.skip(5) + more);
            lemma_elements_extend(s[0], n as nat, s.skip(5), more);
        } else if kind == TAG_COMPOUND {
            lemma_entries_extend(s, more);
        } else if kind == TAG_STRING {
            lemma_text_extends(s, more);
        } else if kind == TAG_BYTE_ARRAY {
            lemma_array_extends(s, 1, more);
        } else if kind == TAG_INT_ARRAY {
            lemma_array_extends(s, 4, more);
        } else if kind == TAG_LONG_ARRAY {
            lemma_array_extends(s, 8, more);
        } else {
            assert((s + more).skip(s.len() - rest.len()) =~= rest + more);
        }
    }
}

proof fn lemma_array_extends(s: Seq<u8>, width: int, more: Seq<u8>)
    requires
        width > 0,
    ensures
        drop_array(s, width) matches Some(rest) ==> drop_array(s + more, width) == Some(rest + more),
{
    if let Some(rest) = drop_array(s, width) {
        let (n, behind) = wire::take_i32(s).unwrap();
        assert((s + more).skip(4) =~= s.skip(4) + more);
        assert((behind + more).skip(n * width) =~= behind.skip(n * width) + more);
    }
}

proof fn lemma_text_extends(s: Seq<u8>, more: Seq<u8>)
    ensures
        drop_text(s) matches Some(rest) ==> drop_text(s + more) == Some(rest + more),
{
    if let Some(rest) = drop_text(s) {
        let (n, behind) = wire::take_u16(s).unwrap();
        assert((s + more).skip(2) =~= s.skip(2) + more);
        assert((behind + more).skip(n as int) =~= behind.skip(n as int) + more);
    }
}

proof fn lemma_elements_extend(kind: u8, n: nat, s: Seq<u8>, more: Seq<u8>)
    ensures
        drop_elements(kind, n, s) matches Some(rest) ==> drop_elements(kind, n, s + more) == Some(rest + more),
    decreases s.len(), 2int,
{
    if n > 0 && drop_elements(kind, n, s) is Some {
        let rest = drop_payload(kind, s).unwrap();
        lemma_payload_extends(kind, s, more);
        lemma_elements_extend(kind, (n - 1) as nat, rest, more);
    }
}

proof fn lemma_entries_extend(s: Seq<u8>, more: Seq<u8>)
    ensures
        drop_entries(s) matches Some(rest) ==> drop_entries(s + more) == Some(rest + more),
    decreases s.len(), 0int,
{
    if drop_entries(s) is Some {
        if s[0] == TAG_END {
            assert((s + more).skip(1) =~= s.skip(1) + more);
        } else {
            let t = drop_text(s.skip(1)).unwrap();
            let rest = drop_payload(s[0], t).unwrap();
            assert((s + more).skip(1) =~= s.skip(1) + more);
            lemma_text_extends(s.skip(1), more);
            lemma_payload_extends(s[0], t, more);
            lemma_entries_extend(rest, more);
        }
    }
}

/// Whether a tag's payload is one payload of its kind, and nothing more.
pub open spec fn is_whole(tag: Tag) -> bool {
    drop_payload(tag.kind, tag.payload) == Some(Seq::<u8>::empty())
}

/// A whole payload is read as it stands, whatever is behind it.
pub proof fn lemma_whole_payload(tag: Tag, rest: Seq<u8>)
    requires
        is_whole(tag),
    ensures
        take_payload(tag.kind, tag.payload + rest) == Some((tag, rest)),
        drop_payload(tag.kind, tag.payload + rest) == Some(rest),
        tag.kind != TAG_END,
        tag.payload.len() > 0,
{
    lemma_payload_extends(tag.kind, tag.payload, rest);
    lemma_payload_shorter(tag.kind, tag.payload);
    assert(Seq::<u8>::empty() + rest =~= rest);
    assert((tag.payload + rest).take(tag.payload.len() as int) =~= tag.payload);
}

/// Whether a compound can be written: its names fit, no name is used twice, and its
/// tags are whole.
pub open spec fn is_compound(c: Seq<Entry>) -> bool {
    &&& forall|i: int| 0 <= i < c.len() ==> (#[trigger] c[i]).name.len() < 0x1_0000 && is_whole(c[i].tag)
    &&& forall|i: int, j: int| 0 <= i < j < c.len() ==> (#[trigger] c[i]).name != (#[trigger] c[j]).name
}

proof fn lemma_enc_entries_front(c: Seq<Entry>)
    requires
        c.len() > 0,
    ensures
        enc_entries(c) == enc_entry(c[0]) + enc_entries(c.skip(1)),
    decreases c.len(),
{
    if c.len() == 1 {
        assert(c.drop_last() =~= seq![]);
        assert(c.skip(1) =~= seq![]);
        assert(enc_entries(c.drop_last()) =~= seq![]);
        assert(enc_entries(c) =~= enc_entry(c[0]) + enc_entries(c.skip(1)));
    } else {
        lemma_enc_entries_front(c.drop_last());
        assert(c.drop_last().skip(1) =~= c.skip(1).drop_last());
        assert(c.skip(1).last() == c.last());
        assert(enc_entries(c) =~= enc_entry(c[0]) + enc_entries(c.skip(1)));
    }
}

/// Both readings of entries: their tags, and where they end.
#[verifier::opaque]
spec fn read_and_skipped(c: Seq<Entry>, s: Seq<u8>) -> (Option<(Seq<Entry>, Seq<u8>)>, Option<Seq<u8>>) {
    (take_entries(c, s), drop_entries(s))
}

proof fn lemma_entry_reads_back(c: Seq<Entry>, e: Entry, tail: Seq<u8>)
    requires
        e.name.len() < 0x1_0000,
        is_whole(e.tag),
    ensures
        read_and_skipped(c, enc_entry(e) + tail) == read_and_skipped(put(c, e.name, e.tag), tail),
{
    reveal(read_and_skipped);
    let s = enc_entry(e) + tail;
    lemma_whole_payload(e.tag, tail);
    assert(s.skip(1) =~= enc_text(e.name) + (e.tag.payload + tail));
    lemma_text_read_back(e.name, e.tag.payload + tail);
    assert(s[0] == e.tag.kind);
    assert(tail.len() < s.len());
    assert((e.tag.payload + tail).len() < s.len());
}

proof fn lemma_next_entry(c: Seq<Entry>, i: int)
    requires
        is_compound(c),
        0 <= i < c.len(),
    ensures
        put(c.take(i), c[i].name, c[i].tag) == c.take(i + 1),
{
    let e = c[i];
    if holds(c.take(i), e.name) {
        let k = position(c.take(i), e.name);
        assert(is_first(c.take(i), e.name, k));
        assert(c[k].name != c[i].name);
    }
    assert(c.take(i + 1) =~= c.take(i).push(e));
}

proof fn lemma_entries_read_back(c: Seq<Entry>, i: int, rest: Seq<u8>)
    requires
        is_compound(c),
        0 <= i <= c.len(),
    ensures
        read_and_skipped(c.take(i), enc_entries(c.skip(i)) + seq![TAG_END] + rest) == (
            Some((c, rest)),
            Some(rest),
        ),
    decreases c.len() - i,
{
    let s = enc_entries(c.skip(i)) + seq![TAG_END] + rest;
    if i == c.len() {
        reveal(read_and_skipped);
        assert(c.skip(i) =~= seq![]);
        assert(c.take(i) =~= c);
        assert(s.skip(1) =~= rest);
    } else {
        let tail = enc_entries(c.skip(i + 1)) + seq![TAG_END] + rest;
        lemma_enc_entries_front(c.skip(i));
        assert(c.skip(i).skip(1) =~= c.skip(i + 1));
        assert(c.skip(i)[0] == c[i]);
        assert(s =~= enc_entry(c[i]) + tail);
        lemma_entry_reads_back(c.take(i), c[i], tail);
        lemma_next_entry(c, i);
        lemma_entries_read_back(c, i + 1, rest);
    }
}

proof fn lemma_text_read_back(text: Seq<u8>, rest: Seq<u8>)
    requires
        text.len() < 0x1_0000,
    ensures
        take_text(enc_text(text) + rest) == Some((text, rest)),
        drop_text(enc_text(text) + rest) == Some(rest),
{
    let s = enc_text(text) + rest;
    let n = text.len() as u16;
    assert(s[0] == (n / 0x100) as u8);
    assert(s[1] == (n % 0x100) as u8);
    assert(s.skip(2) =~= text + rest);
    assert(wire::take_u16(s) == Some((n, text + rest)));
    assert((text + rest).take(n as int) =~= text);
    assert((text + rest).skip(n as int) =~= rest);
}

/// A compound that was written is read back, entry for entry and in the same order;
/// as a tag it is whole, so that it can stand inside another.
pub proof fn compounds_read_back(c: Seq<Entry>)
    requires
        is_compound(c),
    ensures
        compound_of(compound_tag(c)) == Some(c),
        is_whole(compound_tag(c)),
{
    reveal(read_and_skipped);
    lemma_entries_read_back(c, 0, seq![]);
    assert(c.take(0) =~= seq![]);
    assert(c.skip(0) =~= c);
    assert(enc_entries(c) + seq![TAG_END] + Seq::<u8>::empty() =~= enc_entries(c) + seq![TAG_END]);
}

/// Whether every entry can be written: its name is short enough, and its tag is whole.
pub open spec fn are_writable(c: Seq<Entry>) -> bool {
    forall|i: int| 0 <= i < c.len() ==> (#[trigger] c[i]).name.len() < 0x1_0000 && is_whole(c[i].tag)
}

/// Entries put one after the other on others.
pub open spec fn merged_from(c: Seq<Entry>, i: int, out: Seq<Entry>) -> Seq<Entry>
    decreases c.len() - i,
{
    if i < 0 || i >= c.len() {
        out
    } else {
        merged_from(c, i + 1, put(out, c[i].name, c[i].tag))
    }
}

/// Entries with each name once: in the place of the first of that name, with the tag of
/// the last.
pub open spec fn merged(c: Seq<Entry>) -> Seq<Entry> {
    merged_from(c, 0, seq![])
}

/// Entries that were put one after the other can be written as a compound.
pub proof fn merged_entries_are_compounds(c: Seq<Entry>, i: int, out: Seq<Entry>)
    requires
        0 <= i,
        are_writable(c),
        is_compound(out),
    ensures
        is_compound(merged_from(c, i, out)),
        merged_from(c, i, out).len() >= out.len(),
        i < c.len() ==> merged_from(c, i, out).len() > 0,
    decreases c.len() - i,
{
    if i < c.len() {
        let next = put(out, c[i].name, c[i].tag);
        puts_keep_compounds(out, c[i].name, c[i].tag);
        if holds(out, c[i].name) {
            assert(is_first(out, c[i].name, position(out, c[i].name)));
        }
        merged_entries_are_compounds(c, i + 1, next);
    }
}

proof fn lemma_merged_from(c: Seq<Entry>, i: int)
    requires
        is_compound(c),
        0 <= i <= c.len(),
    ensures
        merged_from(c, i, c.take(i)) == c,
    decreases c.len() - i,
{
    if i == c.len() {
        assert(c.take(i) =~= c);
    } else {
        lemma_next_entry(c, i);
        lemma_merged_from(c, i + 1);
    }
}

/// A compound has each of its names once already.
pub proof fn compounds_are_merged(c: Seq<Entry>)
    requires
        is_compound(c),
    ensures
        merged(c) == c,
{
    lemma_merged_from(c, 0);
    assert(c.take(0) =~= seq![]);
}

/// A tag on its own is read back, with what stands behind it untouched.
pub proof fn tags_read_back(tag: Tag, named: bool, rest: Seq<u8>)
    requires
        is_whole(tag),
    ensures
        take_nbt(enc_nbt(Some(tag), named) + rest, named) == Some((Some(tag), rest)),
{
    let s = enc_nbt(Some(tag), named) + rest;
    lemma_whole_payload(tag, rest);
    if named {
        assert(s.skip(1) =~= enc_text(seq![]) + (tag.payload + rest)) by {
            assert(enc_text(seq![]) =~= seq![0u8, 0u8]);
        }
        lemma_text_read_back(seq![], tag.payload + rest);
    } else {
        assert(s.skip(1) =~= tag.payload + rest);
    }
}

proof fn lemma_enc_payloads_front(tags: Seq<Tag>)
    requires
        tags.len() > 0,
    ensures
        enc_payloads(tags) == tags[0].payload + enc_payloads(tags.skip(1)),
    decreases tags.len(),
{
    if tags.len() == 1 {
        assert(tags.drop_last() =~= seq![]);
        assert(tags.skip(1) =~= seq![]);
        assert(enc_payloads(tags) =~= tags[0].payload + enc_payloads(tags.skip(1)));
    } else {
        lemma_enc_payloads_front(tags.drop_last());
        assert(tags.drop_last().skip(1) =~= tags.skip(1).drop_last());
        assert(tags.skip(1).last() == tags.last());
        assert(enc_payloads(tags) =~= tags[0].payload + enc_payloads(tags.skip(1)));
    }
}

/// Whether tags can be the elements of a list: whole, of one kind, and not too many.
pub open spec fn is_list(tags: Seq<Tag>) -> bool {
    &&& tags.len() <= i32::MAX
    &&& forall|i: int| 0 <= i < tags.len() ==> is_whole(#[trigger] tags[i]) && tags[i].kind == tags[0].kind
}

proof fn lemma_tags_read_back(tags: Seq<Tag>, i: int)
    requires
        is_list(tags),
        0 <= i <= tags.len(),
        tags.len() > 0,
    ensures
        take_tags(tags.take(i), tags[0].kind, (tags.len() - i) as nat, enc_payloads(tags.skip(i))) == Some(
            (tags, Seq::<u8>::empty()),
        ),
        drop_elements(tags[0].kind, (tags.len() - i) as nat, enc_payloads(tags.skip(i))) == Some(Seq::<u8>::empty()),
    decreases tags.len() - i,
{
    if i == tags.len() {
        assert(tags.take(i) =~= tags);
        assert(tags.skip(i) =~= seq![]);
    } else {
        let rest = enc_payloads(tags.skip(i + 1));
        lemma_enc_payloads_front(tags.skip(i));
        assert(tags.skip(i).skip(1) =~= tags.skip(i + 1));
        lemma_whole_payload(tags[i], rest);
        assert(tags.take(i).push(tags[i]) =~= tags.take(i + 1));
        lemma_tags_read_back(tags, i + 1);
    }
}

/// A list that was written is read back, and is whole.
#[verifier::spinoff_prover]
#[verifier::rlimit(60)]
pub proof fn lists_read_back(tags: Seq<Tag>)
    requires
        is_list(tags),
    ensures
        list_of(list_tag(tags)) == Some(tags),
        is_whole(list_tag(tags)),
{
    let kind = if tags.len() == 0 {
        TAG_END
    } else {
        tags[0].kind
    };
    let n = tags.len() as i32;
    let payload = list_tag(tags).payload;
    wire::u32_round_trip(n as u32, enc_payloads(tags));
    assert(payload.skip(1) =~= wire::enc_u32(n as u32) + enc_payloads(tags));
    assert(payload.skip(5) =~= enc_payloads(tags));
    assert(wire::take_i32(payload.skip(1)) == Some((n, enc_payloads(tags))));
    if tags.len() > 0 {
        lemma_tags_read_back(tags, 0);
        assert(tags.take(0) =~= seq![]);
        assert(tags.skip(0) =~= tags);
    }
}

/// Numbers and arrays are whole.
pub proof fn plain_tags_are_whole(number: i32, bytes: Seq<u8>, words: Seq<i32>)
    requires
        bytes.len() <= i32::MAX,
        words.len() <= i32::MAX,
    ensures
        is_whole(int_tag(number)),
        is_whole(byte_array_tag(bytes)),
        is_whole(int_array_tag(words)),
{
    assert(is_whole(int_tag(number))) by {
        assert(int_tag(number).payload.skip(4) =~= seq![]);
    }
    lemma_bytes_are_whole(bytes);
    lemma_words_are_whole(words);
}

proof fn lemma_bytes_are_whole(bytes: Seq<u8>)
    requires
        bytes.len() <= i32::MAX,
    ensures
        is_whole(byte_array_tag(bytes)),
{
    let payload = byte_array_tag(bytes).payload;
    wire::u32_round_trip(bytes.len() as u32, bytes);
    assert(wire::take_i32(payload) == Some((bytes.len() as i32, bytes)));
    assert(bytes.skip(bytes.len() as int) =~= seq![]);
}

proof fn lemma_words_are_whole(words: Seq<i32>)
    requires
        words.len() <= i32::MAX,
    ensures
        is_whole(int_array_tag(words)),
{
    let body = enc_words(words);
    lemma_words_length(words);
    wire::u32_round_trip(words.len() as u32, body);
    assert(int_array_tag(words).payload =~= wire::enc_u32(words.len() as u32) + body);
    assert(wire::take_i32(int_array_tag(words).payload) == Some((words.len() as i32, body)));
    assert(body.skip(words.len() as int * 4) =~= seq![]);
}

proof fn lemma_words_length(words: Seq<i32>)
    ensures
        enc_words(words).len() == 4 * words.len(),
    decreases words.len(),
{
    if words.len() > 0 {
        lemma_words_length(words.drop_last());
    }
}

/// What was put under a name is found there, and is gone when it is removed again.
pub proof fn put_entries_are_found(c: Seq<Entry>, name: Seq<u8>, tag: Tag)
    ensures
        get(put(c, name, tag), name) == Some(tag),
        !holds(c, name) ==> remove(put(c, name, tag), name) == c,
{
    let all = put(c, name, tag);
    if holds(c, name) {
        let k = position(c, name);
        assert(is_first(c, name, k));
        assert forall|j: int| 0 <= j < k implies (#[trigger] all[j]).name != name by {
            assert(c[j].name != name);
        }
        assert(is_first(all, name, k));
        lemma_position(all, name, k);
    } else {
        let k = c.len() as int;
        lemma_unheld(c, name);
        assert forall|j: int| 0 <= j < k implies (#[trigger] all[j]).name != name by {
            assert(all[j] == c[j]);
        }
        assert(is_first(all, name, k));
        lemma_position(all, name, k);
        assert(all.remove(k) =~= c);
    }
}

/// A name that a compound does not hold is on none of its entries.
pub proof fn lemma_unheld(c: Seq<Entry>, name: Seq<u8>)
    requires
        !holds(c, name),
    ensures
        forall|j: int| 0 <= j < c.len() ==> (#[trigger] c[j]).name != name,
{
    assert forall|j: int| 0 <= j < c.len() implies (#[trigger] c[j]).name != name by {
        if c[j].name == name {
            lemma_first_exists(c, name, j);
        }
    }
}

proof fn lemma_first_exists(c: Seq<Entry>, name: Seq<u8>, j: int)
    requires
        0 <= j < c.len(),
        c[j].name == name,
    ensures
        holds(c, name),
    decreases j,
{
    if forall|k: int| 0 <= k < j ==> (#[trigger] c[k]).name != name {
        assert(is_first(c, name, j));
    } else {
        let k = choose|k: int| 0 <= k < j && (#[trigger] c[k]).name == name;
        lemma_first_exists(c, name, k);
    }
}

/// A put entry leaves every other name as it was.
pub proof fn put_entries_leave_the_rest(c: Seq<Entry>, name: Seq<u8>, tag: Tag, other: Seq<u8>)
    requires
        other != name,
    ensures
        get(put(c, name, tag), other) == get(c, other),
{
    let all = put(c, name, tag);
    if holds(c, other) {
        let k = position(c, other);
        assert(is_first(c, other, k));
        assert forall|j: int| 0 <= j < k implies (#[trigger] all[j]).name != other by {
            assert(c[j].name != other);
        }
        if holds(c, name) {
            assert(is_first(c, name, position(c, name)));
        }
        assert(is_first(all, other, k));
        lemma_position(all, other, k);
    } else {
        lemma_unheld(c, other);
        if holds(all, other) {
            let k = position(all, other);
            assert(is_first(all, other, k));
            if holds(c, name) {
                assert(is_first(c, name, position(c, name)));
            }
            if k < c.len() && k != position(c, name) {
                assert(all[k] == c[k]);
            }
        }
    }
}

/// A compound stays one that can be written when a whole tag is put in it.
pub proof fn puts_keep_compounds(c: Seq<Entry>, name: Seq<u8>, tag: Tag)
    requires
        is_compound(c),
        name.len() < 0x1_0000,
        is_whole(tag),
    ensures
        is_compound(put(c, name, tag)),
{
    let all = put(c, name, tag);
    if holds(c, name) {
        let k = position(c, name);
        assert(is_first(c, name, k));
        assert forall|i: int, j: int| 0 <= i < j < all.len() implies (#[trigger] all[i]).name != (
        #[trigger] all[j]).name by {
            assert(c[i].name != c[j].name);
        }
        assert forall|i: int| 0 <= i < all.len() implies (#[trigger] all[i]).name.len() < 0x1_0000 && is_whole(
            all[i].tag,
        ) by {
            assert(c[i].name.len() < 0x1_0000);
        }
    } else {
        lemma_unheld(c, name);
        assert forall|i: int, j: int| 0 <= i < j < all.len() implies (#[trigger] all[i]).name != (
        #[trigger] all[j]).name by {
            assert(c[i].name != name);
            if j < c.len() {
                assert(c[i].name != c[j].name);
            }
        }
        assert forall|i: int| 0 <= i < all.len() implies (#[trigger] all[i]).name.len() < 0x1_0000 && is_whole(
            all[i].tag,
        ) by {
            if i < c.len() {
                assert(c[i].name.len() < 0x1_0000);
            }
        }
    }
}

/// Whether `cut` is what stands before `rest` in `s`.
spec fn is_cut(s: Seq<u8>, cut: Seq<u8>, rest: Seq<u8>) -> bool {
    &&& rest.len() <= s.len()
    &&& cut == s.take(s.len() - rest.len())
    &&& rest == s.skip(s.len() - rest.len())
}

proof fn lemma_payload_cut(kind: u8, s: Seq<u8>)
    ensures
        drop_payload(kind, s) matches Some(rest) ==> ({
            let cut = s.take(s.len() - rest.len());
            is_cut(s, cut, rest) && drop_payload(kind, cut) == Some(Seq::<u8>::empty())
        }),
    decreases s.len(), 1int,
{
    if let Some(rest) = drop_payload(kind, s) {
        lemma_payload_shorter(kind, s);
        let cut = s.take(s.len() - rest.len());
        if kind == TAG_LIST {
            let (n, behind) = wire::take_i32(s.skip(1)).unwrap();
            lemma_elements_shorter(s[0], n as nat, s.skip(5));
            lemma_elements_cut(s[0], n as nat, s.skip(5));
            assert(rest =~= s.skip(s.len() - rest.len()));
            assert(cut.skip(5) =~= s.skip(5).take(s.len() - 5 - rest.len()));
            assert(wire::take_i32(cut.skip(1)).unwrap().0 == n);
        } else if kind == TAG_COMPOUND {
            lemma_entries_cut(s);
        } else if kind == TAG_STRING {
            lemma_text_cut(s);
        } else if kind == TAG_BYTE_ARRAY {
            lemma_array_cut(s, 1);
        } else if kind == TAG_INT_ARRAY {
            lemma_array_cut(s, 4);
        } else if kind == TAG_LONG_ARRAY {
            lemma_array_cut(s, 8);
        } else {
            assert(cut.skip(cut.len() as int) =~= seq![]);
        }
    }
}

proof fn lemma_array_cut(s: Seq<u8>, width: int)
    requires
        width > 0,
    ensures
        drop_array(s, width) matches Some(rest) ==> ({
            let cut = s.take(s.len() - rest.len());
            is_cut(s, cut, rest) && drop_array(cut, width) == Some(Seq::<u8>::empty())
        }),
{
    if let Some(rest) = drop_array(s, width) {
        let (n, behind) = wire::take_i32(s).unwrap();
        let cut = s.take(s.len() - rest.len());
        assert(rest =~= s.skip(s.len() - rest.len()));
        assert(cut.skip(4) =~= behind.take(n * width));
        assert(cut.skip(4).skip(n * width) =~= seq![]);
    }
}

proof fn lemma_text_cut(s: Seq<u8>)
    ensures
        drop_text(s) matches Some(rest) ==> ({
            let cut = s.take(s.len() - rest.len());
            is_cut(s, cut, rest) && drop_text(cut) == Some(Seq::<u8>::empty())
        }),
{
    if let Some(rest) = drop_text(s) {
        let (n, behind) = wire::take_u16(s).unwrap();
        let cut = s.take(s.len() - rest.len());
        assert(rest =~= s.skip(s.len() - rest.len()));
        assert(cut.skip(2) =~= behind.take(n as int));
        assert(cut.skip(2).skip(n as int) =~= seq![]);
    }
}

proof fn lemma_elements_cut(kind: u8, n: nat, s: Seq<u8>)
    ensures
        drop_elements(kind, n, s) matches Some(rest) ==> ({
            let cut = s.take(s.len() - rest.len());
            is_cut(s, cut, rest) && drop_elements(kind, n, cut) == Some(Seq::<u8>::empty())
        }),
    decreases s.len(), 2int,
{
    if let Some(rest) = drop_elements(kind, n, s) {
        if n == 0 {
            assert(s.take(0) =~= seq![]);
            assert(s.skip(0) =~= s);
        } else {
            let behind = drop_payload(kind, s).unwrap();
            lemma_payload_cut(kind, s);
            lemma_elements_cut(kind, (n - 1) as nat, behind);
            let first = s.take(s.len() - behind.len());
            let others = behind.take(behind.len() - rest.len());
            lemma_payload_extends(kind, first, others);
            lemma_payload_shorter(kind, s);
            assert(Seq::<u8>::empty() + others =~= others);
            assert(first + others =~= s.take(s.len() - rest.len()));
            assert(rest =~= s.skip(s.len() - rest.len()));
        }
    }
}

proof fn lemma_entries_cut(s: Seq<u8>)
    ensures
        drop_entries(s) matches Some(rest) ==> ({
            let cut = s.take(s.len() - rest.len());
            is_cut(s, cut, rest) && drop_entries(cut) == Some(Seq::<u8>::empty())
        }),
    decreases s.len(), 0int,
{
    if let Some(rest) = drop_entries(s) {
        let cut = s.take(s.len() - rest.len());
        lemma_entries_shorter(s);
        if s[0] == TAG_END {
            assert(cut.skip(1) =~= seq![]);
        } else {
            let t = drop_text(s.skip(1)).unwrap();
            let behind = drop_payload(s[0], t).unwrap();
            lemma_text_cut(s.skip(1));
            lemma_payload_cut(s[0], t);
            lemma_payload_shorter(s[0], t);
            lemma_entries_cut(behind);
            let others = behind.take(behind.len() - rest.len());
            lemma_entry_cut(s, t, behind, others);
            assert(cut =~= s.take(s.len() - behind.len()) + others);
            assert(rest =~= s.skip(s.len() - rest.len()));
        }
    }
}

/// The first entry of a compound's bytes ends where it did, whatever stands behind it.
proof fn lemma_entry_cut(s: Seq<u8>, t: Seq<u8>, behind: Seq<u8>, others: Seq<u8>)
    requires
        s.len() > 0,
        s[0] != TAG_END,
        drop_text(s.skip(1)) == Some(t),
        drop_payload(s[0], t.take(t.len() - behind.len())) == Some(Seq::<u8>::empty()),
        behind.len() < t.len() < s.len(),
        is_cut(t, t.take(t.len() - behind.len()), behind),
    ensures
        drop_entries(s.take(s.len() - behind.len()) + others) == drop_entries(others),
{
    let whole = s.take(s.len() - behind.len()) + others;
    let name = s.skip(1).take(s.len() - 1 - t.len());
    let first = t.take(t.len() - behind.len());
    lemma_text_cut(s.skip(1));
    lemma_payload_extends(s[0], first, others);
    lemma_text_extends(name, first + others);
    assert(Seq::<u8>::empty() + others =~= others);
    assert(Seq::<u8>::empty() + (first + others) =~= first + others);
    assert(whole.skip(1) =~= name + (first + others));
    assert(drop_text(whole.skip(1)) == Some(first + others));
    assert(drop_payload(whole[0], first + others) == Some(others));
}

/// Every tag that is read is whole.
pub proof fn read_tags_are_whole(kind: u8, s: Seq<u8>)
    ensures
        take_payload(kind, s) matches Some((tag, rest)) ==> is_whole(tag),
{
    lemma_payload_cut(kind, s);
}

proof fn lemma_entries_are_whole(c: Seq<Entry>, s: Seq<u8>)
    requires
        is_compound(c),
    ensures
        take_entries(c, s) matches Some((all, rest)) ==> is_compound(all),
    decreases s.len(),
{
    if s.len() > 0 && s[0] != TAG_END {
        if let Some((name, t)) = take_text(s.skip(1)) {
            if let Some((tag, rest)) = take_payload(s[0], t) {
                if rest.len() < s.len() {
                    read_tags_are_whole(s[0], t);
                    puts_keep_compounds(c, name, tag);
                    lemma_entries_are_whole(put(c, name, tag), rest);
                }
            }
        }
    }
}

/// Every compound that is read can be written.
pub proof fn read_compounds_can_be_written(tag: Tag)
    ensures
        compound_of(tag) matches Some(c) ==> is_compound(c),
{
    lemma_entries_are_whole(seq![], tag.payload);
}

/// A compound without one of its entries can be written still.
pub proof fn removals_keep_compounds(c: Seq<Entry>, name: Seq<u8>)
    requires
        is_compound(c),
    ensures
        is_compound(remove(c, name)),
{
    if holds(c, name) {
        let k = position(c, name);
        assert(is_first(c, name, k));
        let left = c.remove(k);
        assert forall|i: int| 0 <= i < left.len() implies (#[trigger] left[i]).name.len() < 0x1_0000 && is_whole(
            left[i].tag,
        ) by {
            assert(left[i] == c[if i < k { i } else { i + 1 }]);
        }
        assert forall|i: int, j: int| 0 <= i < j < left.len() implies (#[trigger] left[i]).name != (
        #[trigger] left[j]).name by {
            assert(left[i] == c[if i < k { i } else { i + 1 }]);
            assert(left[j] == c[if j < k { j } else { j + 1 }]);
        }
    }
}

/// Whether bytes can be the UTF-8 of a text: no byte of value 0xc0 occurs in one, and
/// none spells a code unit of a pair.
pub open spec fn is_spelled(text: Seq<u8>) -> bool {
    forall|i: int|
        0 <= i < text.len() ==> (#[trigger] text[i]) != 0xc0 && (text[i] == 0xed && i + 1 < text.len() ==> text[i
            + 1] < 0xa0)
}

proof fn lemma_spelled_tail(text: Seq<u8>, n: int)
    requires
        is_spelled(text),
        0 <= n <= text.len(),
    ensures
        is_spelled(text.skip(n)),
{
    let tail = text.skip(n);
    assert forall|i: int| 0 <= i < tail.len() implies (#[trigger] tail[i]) != 0xc0 && (tail[i] == 0xed && i + 1
        < tail.len() ==> tail[i + 1] < 0xa0) by {
        assert(tail[i] == text[n + i]);
    }
}

proof fn lemma_high_unit(h: int)
    requires
        0 <= h < 0x400,
    ensures
        unit_bytes(0xd800 + h) == seq![0xedu8, (0xa0 + h / 0x40) as u8, (0x80 + h % 0x40) as u8],
{
    let unit = 0xd800 + h;
    assert(unit / 0x1000 == 0xd);
    assert(unit / 0x40 == 0x360 + h / 0x40);
    assert(unit / 0x40 % 0x40 == 0x20 + h / 0x40);
    assert(unit % 0x40 == h % 0x40);
    assert(unit_bytes(unit) =~= seq![0xedu8, (0xa0 + h / 0x40) as u8, (0x80 + h % 0x40) as u8]);
}

proof fn lemma_low_unit(l: int)
    requires
        0 <= l < 0x400,
    ensures
        unit_bytes(0xdc00 + l) == seq![0xedu8, (0xb0 + l / 0x40) as u8, (0x80 + l % 0x40) as u8],
{
    let unit = 0xdc00 + l;
    assert(unit / 0x1000 == 0xd);
    assert(unit / 0x40 == 0x370 + l / 0x40);
    assert(unit / 0x40 % 0x40 == 0x30 + l / 0x40);
    assert(unit % 0x40 == l % 0x40);
    assert(unit_bytes(unit) =~= seq![0xedu8, (0xb0 + l / 0x40) as u8, (0x80 + l % 0x40) as u8]);
}

proof fn lemma_scalar_bytes(a: u8, b: u8, c: u8, d: u8)
    requires
        0xf0 <= a <= 0xf4,
        0x80 <= b < 0xc0,
        0x80 <= c < 0xc0,
        0x80 <= d < 0xc0,
    ensures
        supplementary_bytes(supplementary(a, b, c, d)) == seq![a, b, c, d],
{
    let scalar = supplementary(a, b, c, d) + 0x1_0000;
    let (p, q, r, t) = (a - 0xf0, b - 0x80, c - 0x80, d - 0x80);
    assert(scalar == p * 0x4_0000 + q * 0x1000 + r * 0x40 + t);
    assert(scalar / 0x40 == p * 0x1000 + q * 0x40 + r);
    assert(scalar % 0x40 == t);
    assert(scalar / 0x1000 == p * 0x40 + q);
    assert(scalar / 0x4_0000 == p);
    assert((p * 0x1000 + q * 0x40 + r) % 0x40 == r);
    assert((p * 0x40 + q) % 0x40 == q);
    assert(supplementary_bytes(supplementary(a, b, c, d)) =~= seq![a, b, c, d]);
}

proof fn lemma_supplementary_reads_back(text: Seq<u8>)
    requires
        is_supplementary(text),
    ensures
        ({
            let n = supplementary(text[0], text[1], text[2], text[3]);
            let field = unit_bytes(0xd800 + n / 0x400) + unit_bytes(0xdc00 + n % 0x400);
            field.len() == 6 && is_surrogate_pair(field) && pair_number(field) == n && supplementary_bytes(n)
                == text.take(4)
        }),
{
    let n = supplementary(text[0], text[1], text[2], text[3]);
    let h = n / 0x400;
    let l = n % 0x400;
    lemma_high_unit(h);
    lemma_low_unit(l);
    lemma_scalar_bytes(text[0], text[1], text[2], text[3]);
    let field = unit_bytes(0xd800 + h) + unit_bytes(0xdc00 + l);
    assert(field =~= seq![
        0xedu8,
        (0xa0 + h / 0x40) as u8,
        (0x80 + h % 0x40) as u8,
        0xedu8,
        (0xb0 + l / 0x40) as u8,
        (0x80 + l % 0x40) as u8,
    ]);
    assert(text.take(4) =~= seq![text[0], text[1], text[2], text[3]]);
}

/// The first byte of a field never continues a code unit of a pair.
proof fn lemma_field_start(text: Seq<u8>)
    requires
        is_spelled(text),
        text.len() > 0,
    ensures
        java(text).len() > 0,
        java(text)[0] == text[0] || java(text)[0] == 0xc0 || java(text)[0] == 0xed,
{
    if text[0] != 0 && is_supplementary(text) {
        lemma_supplementary_reads_back(text);
    }
}

/// A text that was spelled as a field reads back as it was.
pub proof fn fields_read_back(text: Seq<u8>)
    requires
        is_spelled(text),
    ensures
        unjava(java(text)) == text,
    decreases text.len(),
{
    let field = java(text);
    if text.len() > 0 {
        if text[0] == 0 {
            lemma_spelled_tail(text, 1);
            fields_read_back(text.skip(1));
            assert(field.skip(2) =~= java(text.skip(1)));
            assert(seq![0u8] + text.skip(1) =~= text);
        } else if is_supplementary(text) {
            let n = supplementary(text[0], text[1], text[2], text[3]);
            let pair = unit_bytes(0xd800 + n / 0x400) + unit_bytes(0xdc00 + n % 0x400);
            lemma_supplementary_reads_back(text);
            lemma_spelled_tail(text, 4);
            fields_read_back(text.skip(4));
            assert(field =~= pair + java(text.skip(4)));
            assert(field.skip(6) =~= java(text.skip(4)));
            assert(is_surrogate_pair(field));
            assert(pair_number(field) == n);
            assert(text.take(4) + text.skip(4) =~= text);
        } else {
            let tail = text.skip(1);
            lemma_spelled_tail(text, 1);
            fields_read_back(tail);
            assert(field.skip(1) =~= java(tail));
            if text[0] == 0xed && tail.len() > 0 {
                lemma_field_start(tail);
                assert(field[1] == java(tail)[0]);
                assert(tail[0] == text[1]);
                if java(tail)[0] == 0xed || java(tail)[0] == 0xc0 {
                    assert(!(0xa0 <= field[1] < 0xb0));
                }
            }
            assert(!is_surrogate_pair(field));
            assert(seq![text[0]] + tail =~= text);
        }
    }
}

/// A string that was written says what it said.
pub proof fn strings_read_back(text: Seq<u8>)
    requires
        is_spelled(text),
        java(text).len() < 0x1_0000,
    ensures
        string_of(string_tag(text)) == Some(text),
{
    fields_read_back(text);
    lemma_text_read_back(java(text), seq![]);
    assert(enc_text(java(text)) + Seq::<u8>::empty() =~= enc_text(java(text)));
}

/// A string is whole.
pub proof fn strings_are_whole(text: Seq<u8>)
    requires
        java(text).len() < 0x1_0000,
    ensures
        is_whole(string_tag(text)),
{
    lemma_text_read_back(java(text), seq![]);
    assert(enc_text(java(text)) + Seq::<u8>::empty() =~= enc_text(java(text)));
}

/// Bytes behind a tag do not change what is read.
pub proof fn tags_extend(s: Seq<u8>, named: bool, more: Seq<u8>)
    ensures
        take_nbt(s, named) matches Some((tag, rest)) ==> take_nbt(s + more, named) == Some((tag, rest + more))
            && rest.len() < s.len(),
{
    if s.len() > 0 {
        assert((s + more).skip(1) =~= s.skip(1) + more);
        if s[0] != TAG_END {
            lemma_text_extends(s.skip(1), more);
            lemma_text_cut(s.skip(1));
            let body = if named {
                drop_text(s.skip(1))
            } else {
                Some(s.skip(1))
            };
            if let Some(t) = body {
                lemma_payload_extends(s[0], t, more);
                lemma_payload_shorter(s[0], t);
                if let Some(rest) = drop_payload(s[0], t) {
                    assert((t + more).take(t.len() - rest.len()) =~= t.take(t.len() - rest.len()));
                }
            }
        }
    }
}

/// The bytes of a tag are the tag, on their own as well.
pub proof fn tags_are_cut(s: Seq<u8>, named: bool)
    ensures
        take_nbt(s, named) matches Some((tag, rest)) ==> rest.len() < s.len() && take_nbt(
            s.take(s.len() - rest.len()),
            named,
        ) == Some((tag, Seq::<u8>::empty())),
{
    if let Some((tag, rest)) = take_nbt(s, named) {
        tags_extend(s, named, seq![]);
        let cut = s.take(s.len() - rest.len());
        if s[0] == TAG_END {
            assert(cut.skip(1) =~= seq![]);
        } else {
            let t = if named {
                drop_text(s.skip(1)).unwrap()
            } else {
                s.skip(1)
            };
            lemma_payload_cut(s[0], t);
            lemma_payload_shorter(s[0], t);
            let body = t.take(t.len() - rest.len());
            if named {
                lemma_text_cut(s.skip(1));
                let name = s.skip(1).take(s.len() - 1 - t.len());
                lemma_text_extends(name, body);
                assert(Seq::<u8>::empty() + body =~= body);
                assert(cut.skip(1) =~= name + body);
            } else {
                assert(cut.skip(1) =~= body);
            }
            assert(body.take(body.len() as int) =~= body);
        }
    }
}

} // verus!
