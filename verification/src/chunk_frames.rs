//! What the parts of a chunk say, byte by byte.
use vstd::prelude::*;
use crate::chunk_legacy;
use crate::chunk_legacy::Blocks;
use crate::chunk_legacy::Column;
use crate::chunk_legacy::Light;
use crate::chunk_legacy::Section;
use crate::chunk_remap;
use crate::mapping;
use crate::nbt;
use crate::nbt::Entry;
use crate::nbt::Tag;
use crate::palette;
use crate::text;
use crate::version;
use crate::version::Version;
use crate::wire;

verus! {

// --- containers ----------------------------------------------------------------------------------------

/// A container whose entries are places in a list of numbers.
pub open spec fn listed(bits: u8, ids: Seq<u32>, indices: Seq<u32>) -> Seq<u8> {
    seq![bits] + palette::enc_palette(ids) + palette::enc_longs(palette::packed(indices, bits))
}

/// A container whose entries are the numbers themselves.
pub open spec fn direct(bits: u8, values: Seq<u32>) -> Seq<u8> {
    seq![bits] + palette::enc_longs(palette::packed(values, bits))
}

/// A container with one number for all its places.
pub open spec fn uniform(id: u32) -> Seq<u8> {
    seq![0u8] + wire::enc_var_int(id as i32) + palette::enc_longs(seq![])
}

/// Whether indices point into a list whose numbers can be written, and fit their bits.
pub open spec fn is_listing(bits: u8, ids: Seq<u32>, indices: Seq<u32>) -> bool {
    &&& ids.len() <= i32::MAX
    &&& palette::all_signed(ids)
    &&& palette::all_fit(indices, bits as nat)
    &&& forall|i: int| 0 <= i < indices.len() ==> (#[trigger] indices[i]) < ids.len()
}

/// The numbers that indices stand for.
pub open spec fn picked(ids: Seq<u32>, indices: Seq<u32>) -> Seq<u32> {
    Seq::new(indices.len(), |i: int| ids[indices[i] as int])
}

proof fn lemma_few_words(count: nat, bits: u8)
    requires
        count <= 4096,
        1 <= bits <= 32,
    ensures
        palette::long_count(count, bits) <= 4096,
{
    let per = palette::per_long(bits) as int;
    assert(per >= 2) by (nonlinear_arith)
        requires
            per == 64int / bits as int,
            1 <= bits <= 32,
    ;
    assert((count + per - 1) / per <= 4096) by (nonlinear_arith)
        requires
            per >= 2,
            0 <= count <= 4096,
    ;
}

proof fn lemma_head(bits: u8, tail: Seq<u8>)
    ensures
        wire::take_u8(seq![bits] + tail) == Some((bits, tail)),
{
    assert((seq![bits] + tail).skip(1) =~= tail);
}

proof fn lemma_listed(bits: u8, ids: Seq<u32>, indices: Seq<u32>, rest: Seq<u8>)
    requires
        1 <= bits <= 32,
        indices.len() <= 4096,
        is_listing(bits, ids, indices),
    ensures
        wire::take_u8(listed(bits, ids, indices) + rest) matches Some((b, t)) && b == bits && palette::take_palette(t)
            == Some((ids, palette::enc_longs(palette::packed(indices, bits)) + rest)),
        palette::take_longs(palette::enc_longs(palette::packed(indices, bits)) + rest) == Some(
            (palette::packed(indices, bits), rest),
        ),
        palette::unpacked(palette::packed(indices, bits), bits, indices.len()) == Some(indices),
        palette::looked_up(indices, ids) == Some(picked(ids, indices)),
{
    let words = palette::packed(indices, bits);
    let end = palette::enc_longs(words) + rest;
    wire::three_pieces(seq![bits], palette::enc_palette(ids), palette::enc_longs(words), rest);
    lemma_head(bits, palette::enc_palette(ids) + end);
    palette::palette_round_trip(ids, end);
    lemma_few_words(indices.len(), bits);
    palette::longs_round_trip(words, rest);
    palette::packed_numbers_come_back(indices, bits);
    assert(palette::looked_up(indices, ids).unwrap() =~= picked(ids, indices));
}

proof fn lemma_direct(bits: u8, values: Seq<u32>, rest: Seq<u8>)
    requires
        1 <= bits <= 32,
        values.len() <= 4096,
        palette::all_fit(values, bits as nat),
    ensures
        wire::take_u8(direct(bits, values) + rest) == Some(
            (bits, palette::enc_longs(palette::packed(values, bits)) + rest),
        ),
        palette::take_longs(palette::enc_longs(palette::packed(values, bits)) + rest) == Some(
            (palette::packed(values, bits), rest),
        ),
        palette::unpacked(palette::packed(values, bits), bits, values.len()) == Some(values),
{
    let words = palette::packed(values, bits);
    wire::two_pieces(seq![bits], palette::enc_longs(words), rest);
    lemma_head(bits, palette::enc_longs(words) + rest);
    lemma_few_words(values.len(), bits);
    palette::longs_round_trip(words, rest);
    palette::packed_numbers_come_back(values, bits);
}

proof fn lemma_uniform(id: u32, rest: Seq<u8>)
    requires
        id <= i32::MAX,
    ensures
        wire::take_u8(uniform(id) + rest) matches Some((bits, t)) && bits == 0 && chunk_legacy::take_id(t) == Some(
            (id, palette::enc_longs(seq![]) + rest),
        ),
        palette::take_longs(palette::enc_longs(seq![]) + rest) == Some((Seq::<u64>::empty(), rest)),
{
    let end = palette::enc_longs(seq![]) + rest;
    wire::three_pieces(seq![0u8], wire::enc_var_int(id as i32), palette::enc_longs(seq![]), rest);
    lemma_head(0, wire::enc_var_int(id as i32) + end);
    wire::var_int_round_trip(id as i32, end);
    palette::longs_round_trip(seq![], rest);
}

/// The biomes of a section are the numbers that its entries stand for, whichever of its
/// three forms it has: entries of up to three bits are places in the list in front of them,
/// wider ones are the numbers themselves, and no entries stand for one number throughout.
pub proof fn biomes_are_read(bits: u8, ids: Seq<u32>, entries: Seq<u32>, id: u32, rest: Seq<u8>)
    requires
        entries.len() == 64,
        id <= i32::MAX,
    ensures
        1 <= bits <= 3 && is_listing(bits, ids, entries) ==> (chunk_legacy::take_biomes(
            listed(bits, ids, entries) + rest,
        ) matches Some((biomes, left)) && left == rest && biomes.len() == 64 && forall|i: int|
            0 <= i < 64 ==> (#[trigger] biomes[i]) == ids[entries[i] as int]),
        4 <= bits <= 32 && palette::all_fit(entries, bits as nat) ==> chunk_legacy::take_biomes(
            direct(bits, entries) + rest,
        ) == Some((entries, rest)),
        chunk_legacy::take_biomes(uniform(id) + rest) matches Some((biomes, left)) && left == rest && biomes.len() == 64
            && forall|i: int| 0 <= i < 64 ==> (#[trigger] biomes[i]) == id,
{
    if 1 <= bits <= 3 && is_listing(bits, ids, entries) {
        lemma_listed(bits, ids, entries, rest);
    }
    if 4 <= bits <= 32 && palette::all_fit(entries, bits as nat) {
        lemma_direct(bits, entries, rest);
    }
    lemma_uniform(id, rest);
}

proof fn lemma_exact(entries: Seq<u32>, bits: u8, rest: Seq<u8>)
    requires
        1 <= bits <= 32,
        entries.len() == 4096,
        palette::all_fit(entries, bits as nat),
    ensures
        chunk_legacy::take_exact(palette::enc_longs(palette::packed(entries, bits)) + rest, bits) == Some((entries, rest)),
{
    lemma_direct(bits, entries, rest);
}

/// The blocks of a section are the states that its entries stand for, whichever of its
/// three forms it has: entries of four to eight bits are places in the list in front of
/// them, wider ones are the states themselves, and no entries stand for one state throughout.
pub proof fn blocks_are_read(bits: u8, ids: Seq<u32>, entries: Seq<u32>, id: u32, rest: Seq<u8>)
    requires
        entries.len() == 4096,
        id <= i32::MAX,
    ensures
        4 <= bits <= 8 && is_listing(bits, ids, entries) ==> (chunk_legacy::take_container(
            listed(bits, ids, entries) + rest,
        ) matches Some((blocks, left)) && left == rest && blocks.direct_bits is None && blocks.values.len() == 4096
            && forall|i: int| 0 <= i < 4096 ==> (#[trigger] blocks.values[i]) == ids[entries[i] as int]),
        9 <= bits <= 32 && palette::all_fit(entries, bits as nat) ==> chunk_legacy::take_container(
            direct(bits, entries) + rest,
        ) == Some((Blocks { values: entries, direct_bits: Some(bits) }, rest)),
        chunk_legacy::take_container(uniform(id) + rest) matches Some((blocks, left)) && left == rest
            && blocks.direct_bits is None && blocks.values.len() == 4096 && forall|i: int|
            0 <= i < 4096 ==> (#[trigger] blocks.values[i]) == id,
{
    if 4 <= bits <= 8 && is_listing(bits, ids, entries) {
        lemma_listed(bits, ids, entries, rest);
        lemma_exact(entries, bits, rest);
    }
    if 9 <= bits <= 32 && palette::all_fit(entries, bits as nat) {
        lemma_direct(bits, entries, rest);
        lemma_exact(entries, bits, rest);
    }
    lemma_uniform(id, rest);
}

/// Each block goes to a client under the client's own number of its state; a state that it
/// lacks becomes air, and without a table states stay.
pub proof fn states_are_renumbered(values: Seq<u32>, slots: Seq<Option<u32>>, i: int)
    requires
        0 <= i < values.len(),
    ensures
        chunk_legacy::states_mapped(values, None) == values,
        chunk_legacy::states_mapped(values, Some(slots)).len() == values.len(),
        chunk_legacy::states_mapped(values, Some(slots))[i] == (match mapping::target_of(slots, values[i]) {
            Some(state) => state,
            None => 0u32,
        }),
{
    assert(chunk_legacy::states_mapped(values, None) =~= values);
}

// --- columns ----------------------------------------------------------------------------------------------

/// A section is the number of its blocks, its blocks and its biomes, and the sections of a
/// column follow one another.
pub proof fn sections_follow_one_another(
    column: Column,
    count: u16,
    container: Seq<u8>,
    blocks: Blocks,
    biome_bytes: Seq<u8>,
    biomes: Seq<u32>,
    index: nat,
    first: nat,
    states: Option<Seq<Option<u32>>>,
    more: Seq<u8>,
)
    requires
        chunk_legacy::take_container(container + (biome_bytes + more)) == Some((blocks, biome_bytes + more)),
        chunk_legacy::take_biomes(biome_bytes + more) == Some((biomes, more)),
    ensures
        chunk_legacy::column_of(
            column,
            wire::enc_u16(count) + container + biome_bytes + more,
            index,
            first,
            states,
        ) == (match chunk_legacy::with_section(column, (Section { count, blocks, biomes }), index, first, states) {
            Some(next) => chunk_legacy::column_of(next, more, index + 1, first, states),
            None => None,
        }),
{
    let s = wire::enc_u16(count) + container + biome_bytes + more;
    let tail = container + (biome_bytes + more);
    wire::three_pieces(wire::enc_u16(count), container, biome_bytes, more);
    assert(s.skip(2) =~= tail);
    assert(s[0] == (count / 0x100) as u8 && s[1] == (count % 0x100) as u8);
    assert(wire::take_u16(s) == Some((count, tail)));
    assert(s.len() > more.len());
}

/// What a section gives to a column: nothing where it lies outside the client's world; only
/// its biomes where it has no blocks; and else the bit of its place in the world, its number
/// of blocks, its blocks, and its biomes, behind what is there.
pub proof fn sections_go_on_top(
    column: Column,
    section: Section,
    index: nat,
    first: nat,
    states: Option<Seq<Option<u32>>>,
    bytes: Seq<u8>,
)
    requires
        chunk_legacy::container_written(section.blocks, states, chunk_legacy::global_bits(states)) == Some(bytes),
    ensures
        chunk_legacy::with_section(column, section, index, first, states) matches Some(next) && {
            let inside = first <= index < first + 16;
            &&& !inside ==> next == column
            &&& inside ==> next.biomes == column.biomes + section.biomes
            &&& inside && section.count == 0 ==> next.mask == column.mask && next.kept == column.kept
            &&& inside && section.count != 0 ==> next.kept == column.kept + wire::enc_u16(section.count) + bytes
            &&& inside && section.count != 0 ==> forall|b: u64|
                b < 64 ==> #[trigger] has_section(next.mask, b) == (has_section(column.mask, b) || b == index - first)
        },
{
    if first <= index < first + 16 && section.count != 0 {
        let place = (index - first) as u64;
        let mask = column.mask;
        assert forall|b: u64| b < 64 implies #[trigger] has_section(mask | (1u64 << place), b) == (has_section(mask, b)
            || b == place) by {
            assert(((mask | (1u64 << place)) & (1u64 << b) != 0) == (mask & (1u64 << b) != 0 || b == place))
                by (bit_vector)
                requires
                    b < 64,
                    place < 16,
            ;
        }
    }
}

/// Whether a mask names a section.
pub open spec fn has_section(mask: u64, b: u64) -> bool {
    mask & (1u64 << b) != 0
}

/// The client's world begins at zero: where the server's begins a number of sections below,
/// so many are left out, and so are those of its light.
pub proof fn the_world_begins_at_zero(sections: int)
    requires
        0 <= sections <= 0x7ff_ffff,
    ensures
        chunk_legacy::first_section((-16 * sections) as i32) == sections,
        chunk_legacy::first_light((-16 * sections) as i32) == sections,
        chunk_legacy::first_section((16 * sections) as i32) == 0,
        chunk_legacy::first_light((16 * sections) as i32) == 0,
{
}

// --- block entities ------------------------------------------------------------------------------------------

proof fn lemma_entity_names()
    ensures
        wire::key("id") != wire::key("x"),
        wire::key("id") != wire::key("y"),
        wire::key("id") != wire::key("z"),
        wire::key("x") != wire::key("y"),
        wire::key("x") != wire::key("z"),
        wire::key("y") != wire::key("z"),
{
    reveal_strlit("id");
    reveal_strlit("x");
    reveal_strlit("y");
    reveal_strlit("z");
    vstd::utf8::is_ascii_chars_encode_utf8("id"@);
    vstd::utf8::is_ascii_chars_encode_utf8("x"@);
    vstd::utf8::is_ascii_chars_encode_utf8("y"@);
    vstd::utf8::is_ascii_chars_encode_utf8("z"@);
    assert(wire::key("id").len() == 2);
    assert(wire::key("x").len() == 1 && wire::key("x")[0] == 120);
    assert(wire::key("y").len() == 1 && wire::key("y")[0] == 121);
    assert(wire::key("z").len() == 1 && wire::key("z")[0] == 122);
}

/// What a block entity is as a whole tag: its name, and its place in the world. The high half
/// of the byte in front is how far east it lies in the chunk, the low half how far south.
pub proof fn block_entities_say_where_they_are(
    entries: Seq<Entry>,
    name: Seq<u8>,
    east: u8,
    south: u8,
    y: i16,
    height: u16,
    x: i32,
    z: i32,
)
    requires
        east < 16,
        south < 16,
        y >= 0 ==> height == y,
        y < 0 ==> height == y + 0x1_0000,
        -0x800_0000 <= x < 0x800_0000,
        -0x800_0000 <= z < 0x800_0000,
    ensures
        ({
            let whole = chunk_legacy::whole_entity(entries, name, ((16 * east + south) as u8, height), x, z);
            &&& nbt::get(whole, wire::key("id")) == Some(nbt::string_tag(wire::key("minecraft:") + name))
            &&& nbt::get(whole, wire::key("x")) == Some(nbt::int_tag((16 * x + east) as i32))
            &&& nbt::get(whole, wire::key("y")) == Some(nbt::int_tag(y as i32))
            &&& nbt::get(whole, wire::key("z")) == Some(nbt::int_tag((16 * z + south) as i32))
            &&& forall|other: Seq<u8>|
                other != wire::key("id") && other != wire::key("x") && other != wire::key("y") && other != wire::key("z")
                    ==> #[trigger] nbt::get(whole, other) == nbt::get(entries, other)
        }),
{
    let place = ((16 * east + south) as u8, height);
    lemma_entity_names();
    assert(place.0 as int / 16 == east);
    assert(place.0 as int % 16 == south);
    let a = chunk_legacy::wrapped(x * 16 + east);
    let b = chunk_legacy::wrapped(z * 16 + south);
    lemma_wrapped(x * 16 + east);
    lemma_wrapped(z * 16 + south);
    assert(nbt::i16_of(height) == y);
    let id_tag = nbt::string_tag(text::namespaced(name));
    let named = nbt::put(entries, wire::key("id"), id_tag);
    let at_x = nbt::put(named, wire::key("x"), nbt::int_tag(a));
    let at_y = nbt::put(at_x, wire::key("y"), nbt::int_tag(y as i32));
    let whole = nbt::put(at_y, wire::key("z"), nbt::int_tag(b));
    nbt::put_entries_are_found(entries, wire::key("id"), id_tag);
    nbt::put_entries_are_found(named, wire::key("x"), nbt::int_tag(a));
    nbt::put_entries_are_found(at_x, wire::key("y"), nbt::int_tag(y as i32));
    nbt::put_entries_are_found(at_y, wire::key("z"), nbt::int_tag(b));
    assert forall|other: Seq<u8>| other != wire::key("z") implies nbt::get(whole, other) == nbt::get(at_y, other) by {
        nbt::put_entries_leave_the_rest(at_y, wire::key("z"), nbt::int_tag(b), other);
    }
    assert forall|other: Seq<u8>| other != wire::key("y") implies nbt::get(at_y, other) == nbt::get(at_x, other) by {
        nbt::put_entries_leave_the_rest(at_x, wire::key("y"), nbt::int_tag(y as i32), other);
    }
    assert forall|other: Seq<u8>| other != wire::key("x") implies nbt::get(at_x, other) == nbt::get(named, other) by {
        nbt::put_entries_leave_the_rest(named, wire::key("x"), nbt::int_tag(a), other);
    }
    assert forall|other: Seq<u8>| other != wire::key("id") implies nbt::get(named, other) == nbt::get(entries, other) by {
        nbt::put_entries_leave_the_rest(entries, wire::key("id"), id_tag, other);
    }
}

proof fn lemma_wrapped(value: int)
    requires
        i32::MIN <= value <= i32::MAX,
    ensures
        chunk_legacy::wrapped(value) == value,
{
    if value < 0 {
        assert(value % 0x1_0000_0000 == value + 0x1_0000_0000);
    }
}

/// A block entity is its place in the chunk, its height, the number of its kind and its tag;
/// one whose kind has a name is written with it, and one without is left out.
pub proof fn block_entities_follow_one_another(
    kept: nat,
    done: Seq<u8>,
    n: nat,
    xz: u8,
    y: u16,
    kind: i32,
    entries: Seq<Entry>,
    x: i32,
    z: i32,
    kinds: Seq<Option<u32>>,
    names: Seq<Vec<u8>>,
    more: Seq<u8>,
)
    requires
        n > 0,
        nbt::is_compound(entries),
    ensures
        ({
            let tag = nbt::enc_nbt(Some(nbt::compound_tag(entries)), true);
            let s = seq![xz] + wire::enc_u16(y) + wire::enc_var_int(kind) + tag + more;
            chunk_legacy::entities_written(kept, done, n, s, x, z, kinds, names) == (match chunk_legacy::entity_name(
                kind,
                kinds,
                names,
            ) {
                Some(name) => chunk_legacy::entities_written(
                    kept + 1,
                    done + nbt::enc_nbt(
                        Some(nbt::compound_tag(chunk_legacy::whole_entity(entries, name, (xz, y), x, z))),
                        true,
                    ),
                    (n - 1) as nat,
                    more,
                    x,
                    z,
                    kinds,
                    names,
                ),
                None => chunk_legacy::entities_written(kept, done, (n - 1) as nat, more, x, z, kinds, names),
            })
        }),
{
    let tag = nbt::enc_nbt(Some(nbt::compound_tag(entries)), true);
    let s = seq![xz] + wire::enc_u16(y) + wire::enc_var_int(kind) + tag + more;
    wire::four_pieces(seq![xz], wire::enc_u16(y), wire::enc_var_int(kind), tag, more);
    let s2 = wire::enc_var_int(kind) + (tag + more);
    let s1 = wire::enc_u16(y) + s2;
    lemma_head(xz, s1);
    assert(s1.skip(2) =~= s2);
    assert(s1[0] == (y / 0x100) as u8 && s1[1] == (y % 0x100) as u8);
    assert(wire::take_u16(s1) == Some((y, s2)));
    wire::var_int_round_trip(kind, tag + more);
    nbt::compounds_read_back(entries);
    nbt::tags_read_back(nbt::compound_tag(entries), true, more);
    assert(chunk_legacy::take_named_compound(tag + more) == Some((entries, more)));
}

// --- light -----------------------------------------------------------------------------------------------------

proof fn lemma_first_array(first: Seq<u8>, arrays: Seq<Seq<u8>>)
    ensures
        chunk_legacy::enc_arrays(seq![first] + arrays) == wire::enc_len(first.len()) + first + chunk_legacy::enc_arrays(
            arrays,
        ),
    decreases arrays.len(),
{
    let all = seq![first] + arrays;
    let head = wire::enc_len(first.len()) + first;
    if arrays.len() == 0 {
        assert(all.drop_last() =~= seq![]);
        assert(all.last() == first);
        assert(chunk_legacy::enc_arrays(all.drop_last()) == Seq::<u8>::empty());
        wire::no_piece(head);
        assert(Seq::<u8>::empty() + wire::enc_len(first.len()) + first =~= head);
    } else {
        let rest = arrays.drop_last();
        lemma_first_array(first, rest);
        assert(all.drop_last() =~= seq![first] + rest);
        assert(all.last() == arrays.last());
        wire::three_pieces(
            head,
            chunk_legacy::enc_arrays(rest),
            wire::enc_len(arrays.last().len()),
            arrays.last(),
        );
        wire::two_pieces(
            chunk_legacy::enc_arrays(rest),
            wire::enc_len(arrays.last().len()),
            arrays.last(),
        );
        assert(all.last() == arrays.last());
        assert(head + chunk_legacy::enc_arrays(rest) + wire::enc_len(arrays.last().len()) + arrays.last() == head
            + chunk_legacy::enc_arrays(arrays));
    }
}

/// Whether arrays are short enough for their lengths to be written.
pub open spec fn are_short(arrays: Seq<Seq<u8>>) -> bool {
    forall|i: int| 0 <= i < arrays.len() ==> (#[trigger] arrays[i]).len() <= i32::MAX
}

proof fn lemma_arrays(done: Seq<Seq<u8>>, arrays: Seq<Seq<u8>>, rest: Seq<u8>)
    requires
        are_short(arrays),
    ensures
        chunk_legacy::take_arrays(done, arrays.len(), chunk_legacy::enc_arrays(arrays) + rest) == Some(
            (done + arrays, rest),
        ),
    decreases arrays.len(),
{
    if arrays.len() == 0 {
        wire::no_piece(rest);
        assert(done + arrays =~= done);
    } else {
        let first = arrays[0];
        let tail = arrays.drop_first();
        assert(seq![first] + tail =~= arrays);
        lemma_first_array(first, tail);
        let behind = chunk_legacy::enc_arrays(tail) + rest;
        wire::three_pieces(wire::enc_len(first.len()), first, chunk_legacy::enc_arrays(tail), rest);
        assert(first.len() <= i32::MAX);
        wire::len_round_trip(first.len(), first + behind);
        assert((first + behind).take(first.len() as int) =~= first);
        assert((first + behind).skip(first.len() as int) =~= behind);
        assert(are_short(tail)) by {
            assert forall|i: int| 0 <= i < tail.len() implies (#[trigger] tail[i]).len() <= i32::MAX by {
                assert(tail[i] == arrays[i + 1]);
            }
        }
        lemma_arrays(done.push(first), tail, rest);
        assert(done.push(first) + tail =~= done + arrays);
    }
}

/// Whether light is such that the server can send it: there is an array for each section that
/// has light, and the masks are not too long.
pub open spec fn is_light(light: Light) -> bool {
    &&& light.sky.len() <= 1024 && light.block.len() <= 1024
    &&& light.empty_sky.len() <= 1024 && light.empty_block.len() <= 1024
    &&& light.sky_arrays.len() == chunk_legacy::lit_count(light.sky) && light.sky_arrays.len() <= 4096
    &&& light.block_arrays.len() == chunk_legacy::lit_count(light.block) && light.block_arrays.len() <= 4096
    &&& are_short(light.sky_arrays) && are_short(light.block_arrays)
}

/// What a chunk and a client of 1.17 have of light: the sections with sky light, those with
/// light of blocks, those without sky light, those without light of blocks, and then the
/// arrays of the first and of the second.
pub open spec fn light_bytes(light: Light) -> Seq<u8> {
    palette::enc_longs(light.sky) + palette::enc_longs(light.block) + palette::enc_longs(light.empty_sky)
        + palette::enc_longs(light.empty_block) + (wire::enc_len(light.sky_arrays.len()) + chunk_legacy::enc_arrays(
        light.sky_arrays,
    ) + (wire::enc_len(light.block_arrays.len()) + chunk_legacy::enc_arrays(light.block_arrays)))
}

proof fn lemma_mask(mask: Seq<u64>, rest: Seq<u8>)
    requires
        mask.len() <= 1024,
    ensures
        chunk_legacy::take_mask(palette::enc_longs(mask) + rest) == Some((mask, rest)),
{
    wire::two_pieces(wire::enc_len(mask.len()), palette::enc_words(mask), rest);
    wire::len_round_trip(mask.len(), palette::enc_words(mask) + rest);
    palette::lemma_words_read_back(seq![], mask, rest);
    assert(Seq::<u64>::empty() + mask =~= mask);
}

proof fn lemma_light(arrays: Seq<Seq<u8>>, mask: Seq<u64>, rest: Seq<u8>)
    requires
        arrays.len() == chunk_legacy::lit_count(mask),
        arrays.len() <= 4096,
        are_short(arrays),
    ensures
        chunk_legacy::take_light(wire::enc_len(arrays.len()) + chunk_legacy::enc_arrays(arrays) + rest, mask) == Some(
            (arrays, rest),
        ),
{
    wire::two_pieces(wire::enc_len(arrays.len()), chunk_legacy::enc_arrays(arrays), rest);
    wire::len_round_trip(arrays.len(), chunk_legacy::enc_arrays(arrays) + rest);
    lemma_arrays(seq![], arrays, rest);
    assert(Seq::<Seq<u8>>::empty() + arrays =~= arrays);
}

/// The light of a chunk is read mask by mask and array by array.
pub proof fn light_is_read(light: Light, rest: Seq<u8>)
    requires
        is_light(light),
    ensures
        chunk_legacy::take_light_data(wire::enc_bool(light.trust_edges) + light_bytes(light) + rest) == Some((light, rest)),
{
    let flag = wire::enc_bool(light.trust_edges);
    let blocks = wire::enc_len(light.block_arrays.len()) + chunk_legacy::enc_arrays(light.block_arrays);
    let skies = wire::enc_len(light.sky_arrays.len()) + chunk_legacy::enc_arrays(light.sky_arrays);
    let end = blocks + rest;
    let arrays = skies + end;
    let (a, b, c, d) = (
        palette::enc_longs(light.sky),
        palette::enc_longs(light.block),
        palette::enc_longs(light.empty_sky),
        palette::enc_longs(light.empty_block),
    );
    wire::two_pieces(flag, light_bytes(light), rest);
    wire::two_pieces(a + b + c + d, skies + blocks, rest);
    wire::two_pieces(skies, blocks, rest);
    wire::four_pieces(a, b, c, d, arrays);
    let s1 = a + (b + (c + (d + arrays)));
    assert(light_bytes(light) + rest == s1);
    assert((flag + s1).skip(1) =~= s1);
    assert((flag + s1)[0] == flag[0]);
    assert(wire::take_bool(flag + s1) == Some((light.trust_edges, s1)));
    lemma_mask(light.sky, b + (c + (d + arrays)));
    lemma_mask(light.block, c + (d + arrays));
    lemma_mask(light.empty_sky, d + arrays);
    lemma_mask(light.empty_block, arrays);
    lemma_light(light.sky_arrays, light.sky, end);
    lemma_light(light.block_arrays, light.block, rest);
}

/// A client from 1.17 on gets the light of a chunk as it is, behind the chunk's place and,
/// up to 1.19.4, whether edges are trusted.
pub proof fn light_is_sent(light: Light, x: i32, z: i32, world_bottom: i32, version: Version)
    requires
        version >= version::V_1_17,
    ensures
        version <= version::V_1_19_4 ==> chunk_legacy::enc_light(light, x, z, world_bottom, version) == wire::enc_var_int(
            x,
        ) + wire::enc_var_int(z) + wire::enc_bool(light.trust_edges) + light_bytes(light),
        version > version::V_1_19_4 ==> chunk_legacy::enc_light(light, x, z, world_bottom, version) == wire::enc_var_int(
            x,
        ) + wire::enc_var_int(z) + light_bytes(light),
{
    let head = wire::enc_var_int(x) + wire::enc_var_int(z);
    let (a, b, c, d) = (
        palette::enc_longs(light.sky),
        palette::enc_longs(light.block),
        palette::enc_longs(light.empty_sky),
        palette::enc_longs(light.empty_block),
    );
    let (e, f, g, h) = (
        wire::enc_len(light.sky_arrays.len()),
        chunk_legacy::enc_arrays(light.sky_arrays),
        wire::enc_len(light.block_arrays.len()),
        chunk_legacy::enc_arrays(light.block_arrays),
    );
    wire::no_piece(head);
    lemma_eight(head, a, b, c, d, e, f, g, h);
    lemma_eight(head + wire::enc_bool(light.trust_edges), a, b, c, d, e, f, g, h);
}

proof fn lemma_eight(
    head: Seq<u8>,
    a: Seq<u8>,
    b: Seq<u8>,
    c: Seq<u8>,
    d: Seq<u8>,
    e: Seq<u8>,
    f: Seq<u8>,
    g: Seq<u8>,
    h: Seq<u8>,
)
    ensures
        head + a + b + c + d + e + f + g + h == head + (a + b + c + d + (e + f + (g + h))),
{
    assert(head + a + b + c + d + e + f + g + h =~= head + (a + b + c + d + (e + f + (g + h))));
}

/// A client before 1.17 gets the eighteen sections of its world: the masks of sky light, of
/// light of blocks, of what is without either, and then the arrays of the first and of the
/// second.
pub proof fn cut_light_is_sent(light: Light, x: i32, z: i32, world_bottom: i32, version: Version)
    requires
        version::V_1_16 <= version < version::V_1_17,
    ensures
        ({
            let start = chunk_legacy::first_light(world_bottom);
            chunk_legacy::enc_light(light, x, z, world_bottom, version) == wire::enc_var_int(x) + wire::enc_var_int(z)
                + wire::enc_bool(light.trust_edges) + wire::enc_var_int(
                chunk_legacy::cut_mask(light.sky, start, 18) as i32,
            ) + wire::enc_var_int(chunk_legacy::cut_mask(light.block, start, 18) as i32) + wire::enc_var_int(
                chunk_legacy::cut_mask(light.empty_sky, start, 18) as i32,
            ) + wire::enc_var_int(chunk_legacy::cut_mask(light.empty_block, start, 18) as i32) + chunk_legacy::enc_arrays(
                chunk_legacy::cut_arrays(light.sky, light.sky_arrays, start),
            ) + chunk_legacy::enc_arrays(chunk_legacy::cut_arrays(light.block, light.block_arrays, start))
        }),
{
}

/// A chunk of 1.17 becomes one of 1.16 at the same place: behind it that it is whole, then
/// the mask of its sections as one number, then the rest of it, with its states renumbered.
pub proof fn chunks_are_reframed_again(x: i32, z: i32, mask: i32, rest: Seq<u8>, states: Option<Seq<Option<u32>>>)
    requires
        mask >= 0,
    ensures
        ({
            let payload = wire::enc_i32(x) + wire::enc_i32(z) + palette::enc_longs(seq![mask as u64]) + rest;
            match chunk_legacy::column_rewritten(rest, mask as u64, states) {
                Some(column) => chunk_legacy::chunk_1_16(payload, states) == Some(
                    wire::enc_i32(x) + wire::enc_i32(z) + seq![1u8] + wire::enc_var_int(mask) + column,
                ),
                None => chunk_legacy::chunk_1_16(payload, states) is None,
            }
        }),
{
    let words = seq![mask as u64];
    wire::three_pieces(wire::enc_i32(x), wire::enc_i32(z), palette::enc_longs(words), rest);
    wire::i32_round_trip(x, wire::enc_i32(z) + (palette::enc_longs(words) + rest));
    wire::i32_round_trip(z, palette::enc_longs(words) + rest);
    palette::longs_round_trip(words, rest);
    assert(wire::i64_of_bits(mask as u64) == mask);
}

// --- whole chunks ------------------------------------------------------------------------------------------------

proof fn lemma_heightmaps(tag: Tag, rest: Seq<u8>)
    requires
        nbt::is_whole(tag),
    ensures
        chunk_remap::raw_nbt(nbt::enc_nbt(Some(tag), true) + rest, true) == Some((nbt::enc_nbt(Some(tag), true), rest)),
{
    let bytes = nbt::enc_nbt(Some(tag), true);
    let s = bytes + rest;
    nbt::tags_read_back(tag, true, rest);
    assert(s.take(s.len() - rest.len()) =~= bytes);
    assert(bytes =~= seq![tag.kind] + seq![0u8, 0u8] + tag.payload);
    assert(s.skip(1)[0] == 0 && s.skip(1)[1] == 0);
    assert(wire::take_u16(s.skip(1)) matches Some((n, t)) && n == 0);
}

/// A chunk of 1.18: its place, its heightmaps, its sections, its block entities and its light.
pub open spec fn chunk_bytes(
    x: i32,
    z: i32,
    heightmaps: Tag,
    sections: Seq<u8>,
    count: i32,
    entities: Seq<u8>,
    light: Light,
) -> Seq<u8> {
    wire::enc_i32(x) + wire::enc_i32(z) + nbt::enc_nbt(Some(heightmaps), true) + wire::enc_len(sections.len()) + sections
        + (wire::enc_var_int(count) + (entities + (wire::enc_bool(light.trust_edges) + light_bytes(light))))
}

proof fn lemma_start(x: i32, z: i32, heightmaps: Tag, sections: Seq<u8>, rest: Seq<u8>)
    requires
        nbt::is_whole(heightmaps),
        sections.len() <= i32::MAX,
    ensures
        chunk_legacy::take_start(
            wire::enc_i32(x) + wire::enc_i32(z) + nbt::enc_nbt(Some(heightmaps), true) + wire::enc_len(sections.len())
                + sections + rest,
        ) == Some((x, z, nbt::enc_nbt(Some(heightmaps), true), sections, rest)),
{
    let (a, b, c, d) = (
        wire::enc_i32(x),
        wire::enc_i32(z),
        nbt::enc_nbt(Some(heightmaps), true),
        wire::enc_len(sections.len()),
    );
    let s4 = sections + rest;
    wire::five_pieces(a, b, c, d, sections, rest);
    wire::i32_round_trip(x, b + (c + (d + s4)));
    wire::i32_round_trip(z, c + (d + s4));
    lemma_heightmaps(heightmaps, d + s4);
    wire::len_round_trip(sections.len(), s4);
    assert(s4.take(sections.len() as int) =~= sections);
    assert(s4.skip(sections.len() as int) =~= rest);
}

/// A chunk of 1.18 becomes one of 1.17 at the same place and with the same heightmaps: the
/// sections that it has as a mask, the biomes of its column, its sections and its block
/// entities; its light goes along apart, with the same place.
pub proof fn chunks_are_reframed(
    x: i32,
    z: i32,
    heightmaps: Tag,
    sections: Seq<u8>,
    column: Column,
    count: i32,
    entities: Seq<u8>,
    kept: nat,
    written: Seq<u8>,
    light: Light,
    world_bottom: i32,
    states: Option<Seq<Option<u32>>>,
    kinds: Seq<Option<u32>>,
    names: Seq<Vec<u8>>,
    version: Version,
)
    requires
        nbt::is_whole(heightmaps),
        sections.len() <= i32::MAX,
        count >= 0,
        is_light(light),
        chunk_legacy::column_of(
            Column { mask: 0, kept: seq![], biomes: seq![] },
            sections,
            0,
            chunk_legacy::first_section(world_bottom),
            states,
        ) == Some(column),
        palette::all_signed(chunk_legacy::padded(column.biomes)),
        column.kept.len() <= i32::MAX,
        ({
            let tail = wire::enc_bool(light.trust_edges) + light_bytes(light);
            chunk_legacy::entities_written(0, seq![], count as nat, entities + tail, x, z, kinds, names) == Some(
                (kept, written, tail),
            )
        }),
    ensures
        chunk_legacy::chunk_1_17(
            chunk_bytes(x, z, heightmaps, sections, count, entities, light),
            world_bottom,
            states,
            kinds,
            names,
            version,
        ) matches Some(reframed) && {
            let biomes = chunk_legacy::padded(column.biomes);
            &&& reframed.chunk == wire::enc_i32(x) + wire::enc_i32(z) + palette::enc_longs(seq![column.mask])
                + nbt::enc_nbt(Some(heightmaps), true) + palette::enc_palette(biomes) + wire::enc_len(column.kept.len())
                + column.kept + wire::enc_len(kept) + written
            &&& reframed.light_update == chunk_legacy::enc_light(light, x, z, world_bottom, version)
        },
{
    reveal(chunk_legacy::chunk_1_17);
    let tail = wire::enc_bool(light.trust_edges) + light_bytes(light);
    let behind = wire::enc_var_int(count) + (entities + tail);
    lemma_start(x, z, heightmaps, sections, behind);
    wire::var_int_round_trip(count, entities + tail);
    light_is_read(light, seq![]);
    wire::no_piece(tail);
}

} // verus!
