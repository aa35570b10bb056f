//! What the server's displays of recipes say, field by field.
use vstd::prelude::*;
use crate::item_backup::ComponentHash;
use crate::item_backup::Row;
use crate::recipe_legacy;
use crate::target::Target;
use crate::types::Stack;
use crate::wire;
use crate::wire::TranslateError;

verus! {

/// A display of one item.
pub open spec fn item_display(item: i32) -> Seq<u8> {
    seq![4u8] + wire::enc_var_int(item)
}

/// A display of an item stands for one of it, as the client has it.
pub proof fn displays_of_items_are_read(
    rows: Seq<Row>,
    item: i32,
    rest: Seq<u8>,
    hashes: Seq<ComponentHash>,
    to: &Target,
)
    requires
        item >= 0,
        !(recipe_legacy::lowered(rows, recipe_legacy::single(item), hashes, to).1 is Empty),
    ensures
        ({
            let (kept, stack) = recipe_legacy::lowered(rows, recipe_legacy::single(item), hashes, to);
            recipe_legacy::take_slot(rows, item_display(item) + rest, hashes, to) == (
                kept,
                Ok::<(Seq<Stack>, Seq<u8>), TranslateError>((seq![stack], rest)),
            )
        }),
{
    let (kept, stack) = recipe_legacy::lowered(rows, recipe_legacy::single(item), hashes, to);
    let t = wire::enc_var_int(item) + rest;
    wire::two_pieces(seq![4u8], wire::enc_var_int(item), rest);
    assert(wire::enc_var_int(4) =~= seq![4u8]);
    wire::var_int_round_trip(4, t);
    lemma_one_item(rows, item, rest, hashes, to);
    let none = Seq::<Stack>::empty();
    assert(none.push(stack) =~= seq![stack]);
}

proof fn lemma_one_item(rows: Seq<Row>, item: i32, rest: Seq<u8>, hashes: Seq<ComponentHash>, to: &Target)
    requires
        item >= 0,
    ensures
        ({
            let (kept, stack) = recipe_legacy::lowered(rows, recipe_legacy::single(item), hashes, to);
            recipe_legacy::take_items(seq![], 1, rows, wire::enc_var_int(item) + rest, hashes, to) == (
                kept,
                Ok::<(Seq<Stack>, Seq<u8>), TranslateError>((recipe_legacy::with_stack(seq![], stack), rest)),
            )
        }),
{
    wire::var_int_round_trip(item, rest);
    let (kept, stack) = recipe_legacy::lowered(rows, recipe_legacy::single(item), hashes, to);
    let items = recipe_legacy::with_stack(seq![], stack);
    assert(recipe_legacy::take_items(items, 0, kept, rest, hashes, to) == (
        kept,
        Ok::<(Seq<Stack>, Seq<u8>), TranslateError>((items, rest)),
    ));
}

/// A recipe ends with its group, which is one more than its number or zero, its category, what
/// it asks for, of which there may be nothing, and flags, the second of which highlights it.
pub proof fn ends_of_recipes_are_read(
    rows: Seq<Row>,
    group: Option<i32>,
    category: i32,
    notify: bool,
    highlight: bool,
    rest: Seq<u8>,
    hashes: Seq<ComponentHash>,
    to: &Target,
)
    requires
        category >= 0,
        group matches Some(number) ==> 0 <= number < i32::MAX,
    ensures
        ({
            let encoded = match group {
                Some(number) => (number + 1) as i32,
                None => 0i32,
            };
            let flags = (if notify {
                1int
            } else {
                0int
            }) + (if highlight {
                2int
            } else {
                0int
            });
            recipe_legacy::take_end(
                rows,
                wire::enc_var_int(encoded) + wire::enc_var_int(category) + seq![0u8] + seq![flags as u8] + rest,
                hashes,
                to,
            ) == (
                rows,
                Ok::<((Option<i32>, i32, bool), Seq<u8>), TranslateError>(((group, category, highlight), rest)),
            )
        }),
{
    let encoded = match group {
        Some(number) => (number + 1) as i32,
        None => 0i32,
    };
    let flags = (if notify {
        1int
    } else {
        0int
    }) + (if highlight {
        2int
    } else {
        0int
    });
    let last = seq![flags as u8];
    wire::four_pieces(wire::enc_var_int(encoded), wire::enc_var_int(category), seq![0u8], last, rest);
    let s3 = last + rest;
    let s2 = seq![0u8] + s3;
    let s1 = wire::enc_var_int(category) + s2;
    wire::var_int_round_trip(encoded, s1);
    wire::var_int_round_trip(category, s2);
    assert(s2.skip(1) =~= s3);
    assert(s2[0] == 0);
    assert(s3.skip(1) =~= rest);
    assert(s3[0] == flags as u8);
}

} // verus!
