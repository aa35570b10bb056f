//! What the definitions of recipes say, byte by byte.
use vstd::prelude::*;
use crate::mapping;
use crate::recipe_legacy;
use crate::recipe_legacy::RecipeBody;
use crate::recipe_legacy::RecipeView;
use crate::target::Target;
use crate::text;
use crate::types;
use crate::types::Stack;
use crate::version;
use crate::version::Version;
use crate::wire;
use crate::wire::TranslateError;

verus! {

/// Whether a definition is a head with what the recipe makes behind it.
pub open spec fn begins(recipe: RecipeView, to: &Target, bytes: Seq<u8>, head: Seq<u8>) -> bool {
    recipe_legacy::enc_body(recipe, to) matches Ok(body) && bytes == head + body
}

proof fn lemma_begins(recipe: RecipeView, to: &Target)
    ensures
        recipe_legacy::enc_definition(recipe, to) matches Ok(bytes) ==> recipe_legacy::enc_head(recipe, to) matches Ok(
            head,
        ) && begins(recipe, to, bytes, head),
{
    if let Ok(bytes) = recipe_legacy::enc_definition(recipe, to) {
        let head = recipe_legacy::enc_head(recipe, to)->Ok_0;
        let body = recipe_legacy::enc_body(recipe, to)->Ok_0;
        assert(bytes == head + body);
    }
}

/// Before 1.20.5 a definition begins with the name of the station: a furnace recipe of
/// the categories 7 and 8 is one of the blast furnace, one of 9 of the smoker, one of 12
/// of the campfire, and any other one of the furnace. Its own name follows.
pub proof fn old_furnace_recipes_name_their_station(recipe: RecipeView, to: &Target)
    requires
        to.version < version::V_1_20_5,
        recipe.data is Furnace,
    ensures
        recipe_legacy::enc_definition(recipe, to) matches Ok(bytes) ==> {
            let name = wire::enc_str(recipe_legacy::identifier(recipe.id));
            &&& (recipe.category == 7 || recipe.category == 8) ==> begins(
                recipe,
                to,
                bytes,
                wire::enc_str(wire::key("minecraft:blasting")) + name,
            )
            &&& recipe.category == 9 ==> begins(recipe, to, bytes, wire::enc_str(wire::key("minecraft:smoking")) + name)
            &&& recipe.category == 12 ==> begins(
                recipe,
                to,
                bytes,
                wire::enc_str(wire::key("minecraft:campfire_cooking")) + name,
            )
            &&& !(7 <= recipe.category <= 9 || recipe.category == 12) ==> begins(
                recipe,
                to,
                bytes,
                wire::enc_str(wire::key("minecraft:smelting")) + name,
            )
        },
{
    lemma_begins(recipe, to);
}

/// Before 1.20.5 the definition of any other recipe begins with the name of its kind.
pub proof fn old_recipes_name_their_kind(recipe: RecipeView, to: &Target)
    requires
        to.version < version::V_1_20_5,
    ensures
        recipe_legacy::enc_definition(recipe, to) matches Ok(bytes) ==> {
            let name = wire::enc_str(recipe_legacy::identifier(recipe.id));
            &&& recipe.data is Shaped ==> begins(
                recipe,
                to,
                bytes,
                wire::enc_str(wire::key("minecraft:crafting_shaped")) + name,
            )
            &&& recipe.data is Shapeless ==> begins(
                recipe,
                to,
                bytes,
                wire::enc_str(wire::key("minecraft:crafting_shapeless")) + name,
            )
            &&& recipe.data is Stonecutter ==> begins(
                recipe,
                to,
                bytes,
                wire::enc_str(wire::key("minecraft:stonecutting")) + name,
            )
        },
{
    lemma_begins(recipe, to);
}

/// From 1.20.5 on the name of a recipe stands in front, and behind it the client's
/// number of its kind: of 16 for the blast furnace, 17 for the smoker, 18 for the
/// campfire, 15 for the furnace, 0 and 1 for shaped and shapeless crafting and 19 for
/// the stonecutter. A kind that the client lacks cannot be told.
pub proof fn recipes_number_their_kind(recipe: RecipeView, to: &Target, kind: i32)
    requires
        to.version >= version::V_1_20_5,
        recipe.data is Furnace && (recipe.category == 7 || recipe.category == 8) ==> kind == 16,
        recipe.data is Furnace && recipe.category == 9 ==> kind == 17,
        recipe.data is Furnace && recipe.category == 12 ==> kind == 18,
        recipe.data is Furnace && !(7 <= recipe.category <= 9 || recipe.category == 12) ==> kind == 15,
        recipe.data is Shaped ==> kind == 0,
        recipe.data is Shapeless ==> kind == 1,
        recipe.data is Stonecutter ==> kind == 19,
    ensures
        match mapping::mapped(to.ids.recipe_serializers@, kind) {
            Some(number) => recipe_legacy::enc_definition(recipe, to) matches Ok(bytes) ==> begins(
                recipe,
                to,
                bytes,
                wire::enc_str(recipe_legacy::identifier(recipe.id)) + wire::enc_var_int(number),
            ),
            None => recipe_legacy::enc_definition(recipe, to) == Err::<Seq<u8>, TranslateError>(
                TranslateError::RecipeKind,
            ),
        },
{
    lemma_begins(recipe, to);
}

// --- whole definitions -----------------------------------------------------------------------------------

/// The bytes of a group: its number in decimal digits, or an empty string.
pub open spec fn group_bytes(group: Option<i32>) -> Seq<u8> {
    match group {
        Some(number) => wire::enc_str(text::decimal(number as int)),
        None => wire::enc_str(seq![]),
    }
}

/// Food is in the first part of an old book, blocks are in the second, and all else is
/// in the third.
pub open spec fn part_bytes(category: i32, version: Version) -> Seq<u8> {
    if version < version::V_1_19_3 {
        seq![]
    } else {
        seq![
            if seq![4i32, 9i32, 12i32].contains(category) {
                0u8
            } else if seq![0i32, 5i32, 7i32, 10i32].contains(category) {
                1u8
            } else {
                2u8
            },
        ]
    }
}

proof fn lemma_group(recipe: RecipeView, to: &Target)
    ensures
        recipe_legacy::enc_group(recipe, true, to) == group_bytes(recipe.group) + part_bytes(
            recipe.category,
            to.version,
        ),
        recipe_legacy::enc_group(recipe, false, to) == group_bytes(recipe.group),
{
    let category = recipe.category;
    let food = seq![4i32, 9i32, 12i32];
    let blocks = seq![0i32, 5i32, 7i32, 10i32];
    assert(food[0] == 4 && food[1] == 9 && food[2] == 12);
    assert(blocks[0] == 0 && blocks[1] == 5 && blocks[2] == 7 && blocks[3] == 10);
    assert(food.contains(category) == (category == 4 || category == 9 || category == 12));
    assert(blocks.contains(category) == (category == 0 || category == 5 || category == 7 || category == 10));
    assert(wire::enc_var_int(0) =~= seq![0u8]);
    assert(wire::enc_var_int(1) =~= seq![1u8]);
    assert(wire::enc_var_int(2) =~= seq![2u8]);
    assert(recipe_legacy::enc_group(recipe, true, to) =~= group_bytes(recipe.group) + part_bytes(
        category,
        to.version,
    ));
    assert(recipe_legacy::enc_group(recipe, false, to) =~= group_bytes(recipe.group));
}

/// The alternatives for an ingredient, one behind the other, with how many there are.
proof fn lemma_one(stack: Stack, bytes: Seq<u8>, version: Version)
    requires
        !(stack is Empty),
        types::enc_item(stack, version, false) == Some(bytes),
    ensures
        recipe_legacy::enc_alternatives(seq![stack], version) == Ok::<Seq<u8>, TranslateError>(seq![1u8] + bytes),
{
    let items = seq![stack];
    assert(recipe_legacy::nonempty_from(items, 1) == 0);
    assert(recipe_legacy::nonempty_from(items, 0) == 1);
    assert(recipe_legacy::enc_stacks_from(items, version, 1) == Ok::<Seq<u8>, TranslateError>(seq![]));
    assert(wire::enc_var_int(1) =~= seq![1u8]);
    assert(bytes + Seq::<u8>::empty() =~= bytes);
}

/// What a furnace recipe says behind its head: its group, the part of the book, what
/// goes in, what comes out, the experience as a float, and then the time.
#[verifier::spinoff_prover]
#[verifier::rlimit(60)]
pub proof fn furnace_recipes_say_what_they_make(
    recipe: RecipeView,
    input: Stack,
    input_bytes: Seq<u8>,
    output: Stack,
    output_bytes: Seq<u8>,
    duration: i32,
    experience: u32,
    to: &Target,
)
    requires
        recipe.data == (RecipeBody::Furnace { ingredient: seq![input], result: output, duration, experience }),
        !(input is Empty) && !(output is Empty),
        types::enc_item(input, to.version, false) == Some(input_bytes),
        types::enc_item(output, to.version, false) == Some(output_bytes),
    ensures
        recipe_legacy::enc_body(recipe, to) == Ok::<Seq<u8>, TranslateError>(
            group_bytes(recipe.group) + part_bytes(recipe.category, to.version) + seq![1u8] + input_bytes
                + output_bytes + wire::enc_u32(experience) + wire::enc_var_int(duration),
        ),
{
    lemma_group(recipe, to);
    lemma_one(input, input_bytes, to.version);
    assert(recipe_legacy::enc_result(output, to) == Ok::<Seq<u8>, TranslateError>(output_bytes));
    assert(recipe_legacy::enc_body(recipe, to)->Ok_0 =~= group_bytes(recipe.group) + part_bytes(
        recipe.category,
        to.version,
    ) + seq![1u8] + input_bytes + output_bytes + wire::enc_u32(experience) + wire::enc_var_int(duration));
}

/// One ingredient with one alternative.
proof fn lemma_lone(stack: Stack, bytes: Seq<u8>, version: Version)
    requires
        !(stack is Empty),
        types::enc_item(stack, version, false) == Some(bytes),
    ensures
        recipe_legacy::enc_ingredients(seq![seq![stack]], version) == Ok::<Seq<u8>, TranslateError>(
            seq![1u8, 1u8] + bytes,
        ),
{
    let lists = seq![seq![stack]];
    lemma_one(stack, bytes, version);
    assert(lists[0] == seq![stack]);
    assert(recipe_legacy::enc_lists_from(lists, version, 1) == Ok::<Seq<u8>, TranslateError>(seq![]));
    assert(seq![1u8] + bytes + Seq::<u8>::empty() =~= seq![1u8] + bytes);
    assert(wire::enc_var_int(1) =~= seq![1u8]);
    assert(seq![1u8] + (seq![1u8] + bytes) =~= seq![1u8, 1u8] + bytes);
}

/// What a recipe of the stonecutter says behind its head: its group, that there is one
/// ingredient with one alternative, what goes in, and what comes out.
#[verifier::spinoff_prover]
#[verifier::rlimit(60)]
pub proof fn stonecutter_recipes_say_what_they_make(
    recipe: RecipeView,
    input: Stack,
    input_bytes: Seq<u8>,
    output: Stack,
    output_bytes: Seq<u8>,
    to: &Target,
)
    requires
        recipe.data == (RecipeBody::Stonecutter { ingredient: seq![input], result: output }),
        !(input is Empty) && !(output is Empty),
        types::enc_item(input, to.version, false) == Some(input_bytes),
        types::enc_item(output, to.version, false) == Some(output_bytes),
    ensures
        recipe_legacy::enc_body(recipe, to) == Ok::<Seq<u8>, TranslateError>(
            group_bytes(recipe.group) + seq![1u8, 1u8] + input_bytes + output_bytes,
        ),
{
    lemma_group(recipe, to);
    lemma_lone(input, input_bytes, to.version);
    assert(recipe_legacy::enc_result(output, to) == Ok::<Seq<u8>, TranslateError>(output_bytes));
    let group = group_bytes(recipe.group);
    let made = seq![1u8, 1u8] + input_bytes;
    assert(recipe_legacy::enc_body(recipe, to) == Ok::<Seq<u8>, TranslateError>(group + made + output_bytes));
    assert(group + made + output_bytes =~= group + seq![1u8, 1u8] + input_bytes + output_bytes);
}

/// Lists of ingredients, each of one stack, one behind the other.
pub open spec fn each_alone(stacks: Seq<Stack>) -> Seq<Seq<Stack>> {
    Seq::new(stacks.len(), |i: int| seq![stacks[i]])
}

/// Each stack behind the number of its alternatives, which is one.
pub open spec fn alone_bytes(stacks: Seq<Seq<u8>>) -> Seq<u8>
    decreases stacks.len(),
{
    if stacks.len() == 0 {
        seq![]
    } else {
        seq![1u8] + stacks[0] + alone_bytes(stacks.drop_first())
    }
}

/// Whether stacks are there and have the given bytes in a release.
pub open spec fn are_written(stacks: Seq<Stack>, bytes: Seq<Seq<u8>>, version: Version) -> bool {
    &&& stacks.len() == bytes.len()
    &&& forall|i: int|
        0 <= i < stacks.len() ==> !(stacks[i] is Empty) && types::enc_item(#[trigger] stacks[i], version, false) == Some(
            bytes[i],
        )
}

proof fn lemma_lists(stacks: Seq<Stack>, bytes: Seq<Seq<u8>>, version: Version, i: int)
    requires
        are_written(stacks, bytes, version),
        0 <= i <= stacks.len(),
    ensures
        recipe_legacy::enc_lists_from(each_alone(stacks), version, i) == Ok::<Seq<u8>, TranslateError>(
            alone_bytes(bytes.skip(i)),
        ),
    decreases stacks.len() - i,
{
    if i < stacks.len() {
        lemma_lists(stacks, bytes, version, i + 1);
        assert(types::enc_item(stacks[i], version, false) == Some(bytes[i]));
        lemma_one(stacks[i], bytes[i], version);
        assert(bytes.skip(i).drop_first() =~= bytes.skip(i + 1));
        assert(seq![1u8] + bytes[i] + alone_bytes(bytes.skip(i + 1)) =~= alone_bytes(bytes.skip(i)));
    } else {
        assert(bytes.skip(i) =~= seq![]);
    }
}

proof fn lemma_ingredients(stacks: Seq<Stack>, bytes: Seq<Seq<u8>>, version: Version)
    requires
        stacks.len() <= i32::MAX,
        are_written(stacks, bytes, version),
    ensures
        recipe_legacy::enc_ingredients(each_alone(stacks), version) == Ok::<Seq<u8>, TranslateError>(
            wire::enc_var_int(stacks.len() as i32) + alone_bytes(bytes),
        ),
{
    lemma_lists(stacks, bytes, version, 0);
    assert(bytes.skip(0) =~= bytes);
}

/// What a shapeless recipe says behind its head: its group, the part of the book, how
/// many ingredients there are, the ingredients in their order, and what comes out.
#[verifier::spinoff_prover]
#[verifier::rlimit(60)]
pub proof fn shapeless_recipes_say_what_they_make(
    recipe: RecipeView,
    inputs: Seq<Stack>,
    input_bytes: Seq<Seq<u8>>,
    output: Stack,
    output_bytes: Seq<u8>,
    to: &Target,
)
    requires
        recipe.data == (RecipeBody::Shapeless { ingredients: each_alone(inputs), result: output }),
        inputs.len() <= i32::MAX,
        are_written(inputs, input_bytes, to.version),
        !(output is Empty),
        types::enc_item(output, to.version, false) == Some(output_bytes),
    ensures
        recipe_legacy::enc_body(recipe, to) == Ok::<Seq<u8>, TranslateError>(
            group_bytes(recipe.group) + part_bytes(recipe.category, to.version) + wire::enc_var_int(
                inputs.len() as i32,
            ) + alone_bytes(input_bytes) + output_bytes,
        ),
{
    lemma_group(recipe, to);
    lemma_ingredients(inputs, input_bytes, to.version);
    assert(recipe_legacy::enc_result(output, to) == Ok::<Seq<u8>, TranslateError>(output_bytes));
    let group = group_bytes(recipe.group) + part_bytes(recipe.category, to.version);
    let count = wire::enc_var_int(inputs.len() as i32);
    let all = alone_bytes(input_bytes);
    assert(recipe_legacy::enc_body(recipe, to) == Ok::<Seq<u8>, TranslateError>(group + (count + all) + output_bytes));
    assert(group + (count + all) + output_bytes =~= group + count + all + output_bytes);
}

/// What a shaped recipe says behind its head: the width of its grid before the height,
/// and both before the group up to 1.20.2 and behind it from then on; the ingredients in
/// their order; what comes out; and from 1.19.4 on that nothing pops up.
#[verifier::spinoff_prover]
#[verifier::rlimit(60)]
pub proof fn shaped_recipes_say_what_they_make(
    recipe: RecipeView,
    width: i32,
    height: i32,
    inputs: Seq<Stack>,
    input_bytes: Seq<Seq<u8>>,
    output: Stack,
    output_bytes: Seq<u8>,
    to: &Target,
)
    requires
        recipe.data == (RecipeBody::Shaped { width, height, ingredients: each_alone(inputs), result: output }),
        inputs.len() <= i32::MAX,
        are_written(inputs, input_bytes, to.version),
        !(output is Empty),
        types::enc_item(output, to.version, false) == Some(output_bytes),
    ensures
        recipe_legacy::enc_body(recipe, to) matches Ok(bytes) && {
            let group = group_bytes(recipe.group) + part_bytes(recipe.category, to.version);
            let grid = wire::enc_var_int(width) + wire::enc_var_int(height);
            let made = wire::enc_var_int(inputs.len() as i32) + alone_bytes(input_bytes) + output_bytes;
            &&& to.version >= version::V_1_20_3 ==> bytes == group + grid + made + seq![0u8]
            &&& version::V_1_19_4 <= to.version < version::V_1_20_3 ==> bytes == grid + group + made + seq![0u8]
            &&& to.version < version::V_1_19_4 ==> bytes == grid + group + made
        },
{
    lemma_group(recipe, to);
    lemma_ingredients(inputs, input_bytes, to.version);
    assert(recipe_legacy::enc_result(output, to) == Ok::<Seq<u8>, TranslateError>(output_bytes));
    let bytes = recipe_legacy::enc_body(recipe, to)->Ok_0;
    let group = group_bytes(recipe.group) + part_bytes(recipe.category, to.version);
    let grid = wire::enc_var_int(width) + wire::enc_var_int(height);
    let made = wire::enc_var_int(inputs.len() as i32) + alone_bytes(input_bytes) + output_bytes;
    if to.version >= version::V_1_20_3 {
        assert(bytes =~= group + grid + made + seq![0u8]);
    } else if to.version >= version::V_1_19_4 {
        assert(bytes =~= grid + group + made + seq![0u8]);
    } else {
        assert(bytes =~= grid + group + made);
    }
}

} // verus!
