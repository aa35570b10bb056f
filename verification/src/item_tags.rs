//! What the tags of an item's NBT say of its components, field by field.
use vstd::prelude::*;
use crate::catalog;
use crate::catalog::Catalog;
use crate::catalog::DataComponent;
use crate::item_component;
use crate::item_nbt;
use crate::item_nbt::DraftView;
use crate::item_round_trip;
use crate::nbt;
use crate::nbt::Entry;
use crate::nbt::Tag;
use crate::target;
use crate::target::Target;
use crate::target::Texts;
use crate::text;
use crate::types::Component;
use crate::version;
use crate::version::Version;
use crate::wire;

verus! {

// --- stacks of one component -----------------------------------------------------------------------------

/// A stack with one component.
#[verifier::opaque]
pub open spec fn alone(id: i32, data: Seq<u8>) -> Seq<Component> {
    seq![Component { id, data }]
}

/// Whether a number stands for a component.
pub open spec fn stands_for(id: i32, component: DataComponent, to: &Target) -> bool {
    catalog::component_of(to.cat, id) == Some(component)
}

/// A tag under a name.
pub open spec fn tagged(name: Seq<u8>, tag: Tag) -> Entry {
    Entry { name, tag }
}

/// Nothing drafted yet.
pub open spec fn blank() -> DraftView {
    DraftView { root: seq![], display: seq![], hide_flags: 0, lore: seq![] }
}

/// A compound with nothing under a name gets a new entry at its end.
pub proof fn lemma_push(c: Seq<Entry>, name: Seq<u8>, tag: Tag)
    requires
        forall|i: int| 0 <= i < c.len() ==> (#[trigger] c[i]).name != name,
    ensures
        nbt::put(c, name, tag) == c.push(Entry { name, tag }),
        nbt::get(c, name) is None,
{
    if nbt::holds(c, name) {
        let k = nbt::position(c, name);
        assert(nbt::is_first(c, name, k));
        assert(c[k].name != name);
    }
}

pub proof fn lemma_put_one(a: Entry)
    ensures
        nbt::put(seq![], a.name, a.tag) == seq![a],
{
    lemma_push(seq![], a.name, a.tag);
    assert(Seq::<Entry>::empty().push(a) =~= seq![a]);
}

pub proof fn lemma_put_two(a: Entry, b: Entry)
    requires
        a.name != b.name,
    ensures
        nbt::put(seq![a], b.name, b.tag) == seq![a, b],
{
    lemma_push(seq![a], b.name, b.tag);
    assert(seq![a].push(b) =~= seq![a, b]);
}

pub proof fn lemma_put_three(a: Entry, b: Entry, c: Entry)
    requires
        a.name != c.name,
        b.name != c.name,
    ensures
        nbt::put(seq![a, b], c.name, c.tag) == seq![a, b, c],
{
    lemma_push(seq![a, b], c.name, c.tag);
    assert(seq![a, b].push(c) =~= seq![a, b, c]);
}

pub proof fn lemma_put_four(a: Entry, b: Entry, c: Entry, d: Entry)
    requires
        a.name != d.name,
        b.name != d.name,
        c.name != d.name,
    ensures
        nbt::put(seq![a, b, c], d.name, d.tag) == seq![a, b, c, d],
{
    lemma_push(seq![a, b, c], d.name, d.tag);
    assert(seq![a, b, c].push(d) =~= seq![a, b, c, d]);
}

pub proof fn lemma_alone(component: DataComponent, id: i32, data: Seq<u8>, to: &Target)
    requires
        stands_for(id, component, to),
        component != DataComponent::CustomData,
    ensures
        item_nbt::nbt_form(alone(id, data), to) == item_nbt::finished(
            item_nbt::drafted(blank(), alone(id, data), 0, to),
        ),
{
    reveal(alone);
    let added = alone(id, data);
    let custom = catalog::id_of(to.cat, DataComponent::CustomData);
    if custom == id {
        item_round_trip::lemma_id_of_component(to.cat, DataComponent::CustomData, 0);
    }
    assert(item_nbt::data_from(added, custom, 1) is None);
    assert(item_nbt::data_from(added, custom, 0) is None);
    let none = Seq::<Entry>::empty();
    lemma_push(none, wire::key("display"), nbt::bool_tag(true));
    lemma_push(none, wire::key("HideFlags"), nbt::bool_tag(true));
    let first = item_nbt::first_draft(added, to.cat);
    assert(first == blank());
    let d = item_nbt::drafted(first, added, 0, to);
    assert(item_nbt::drafted_from(d, added, 1, to) == d);
    assert(item_nbt::drafted_from(first, added, 0, to) == d);
}

/// A component that holds no stacks.
proof fn lemma_plain(component: DataComponent, id: i32, data: Seq<u8>, to: &Target)
    requires
        stands_for(id, component, to),
        component != DataComponent::ChargedProjectiles,
        component != DataComponent::BundleContents,
        component != DataComponent::Container,
    ensures
        item_nbt::drafted(blank(), alone(id, data), 0, to) == item_nbt::drafted_plain(
            blank(),
            component,
            data,
            alone(id, data),
            to,
        ),
{
    reveal(alone);
}

/// As `lemma_alone`, of a component that holds no stacks and puts its tags into the root.
pub proof fn lemma_rooted(component: DataComponent, id: i32, data: Seq<u8>, to: &Target, root: Seq<Entry>)
    requires
        stands_for(id, component, to),
        component != DataComponent::CustomData,
        item_nbt::drafted(blank(), alone(id, data), 0, to) == item_nbt::rooted(blank(), root),
        root.len() > 0,
    ensures
        item_nbt::nbt_form(alone(id, data), to) == Some(root),
{
    lemma_alone(component, id, data, to);
}

/// As `lemma_alone`, of a component that puts a tag into the display.
proof fn lemma_displayed(component: DataComponent, id: i32, data: Seq<u8>, to: &Target, name: Seq<u8>, tag: Tag)
    requires
        stands_for(id, component, to),
        component != DataComponent::CustomData,
        item_nbt::drafted(blank(), alone(id, data), 0, to) == item_nbt::displayed(
            blank(),
            nbt::put(seq![], name, tag),
        ),
    ensures
        item_nbt::nbt_form(alone(id, data), to) == Some(
            seq![tagged(wire::key("display"), nbt::compound_tag(seq![tagged(name, tag)]))],
        ),
{
    lemma_alone(component, id, data, to);
    let none = Seq::<Entry>::empty();
    lemma_push(none, name, tag);
    assert(none.push(tagged(name, tag)) =~= seq![tagged(name, tag)]);
    let shown = nbt::compound_tag(seq![tagged(name, tag)]);
    lemma_push(none, wire::key("display"), shown);
    assert(none.push(tagged(wire::key("display"), shown)) =~= seq![tagged(wire::key("display"), shown)]);
}

proof fn lemma_one_tag(component: DataComponent, id: i32, data: Seq<u8>, to: &Target, name: Seq<u8>, tag: Tag)
    requires
        stands_for(id, component, to),
        component != DataComponent::CustomData,
        item_nbt::drafted(blank(), alone(id, data), 0, to) == item_nbt::rooted(blank(), nbt::put(seq![], name, tag)),
    ensures
        item_nbt::nbt_form(alone(id, data), to) == Some(seq![tagged(name, tag)]),
{
    let none = Seq::<Entry>::empty();
    lemma_push(none, name, tag);
    assert(none.push(tagged(name, tag)) =~= seq![tagged(name, tag)]);
    lemma_rooted(component, id, data, to, seq![tagged(name, tag)]);
}

/// Damage, repair cost and the number of a map are tags of their own, and so is that a stack
/// does not break.
pub proof fn numbers_are_tags_of_their_own(component: DataComponent, id: i32, n: i32, to: &Target)
    requires
        stands_for(id, component, to),
    ensures
        component == DataComponent::Damage ==> item_nbt::nbt_form(alone(id, wire::enc_var_int(n)), to) == Some(
            seq![tagged(wire::key("Damage"), nbt::int_tag(n))],
        ),
        component == DataComponent::RepairCost ==> item_nbt::nbt_form(alone(id, wire::enc_var_int(n)), to) == Some(
            seq![tagged(wire::key("RepairCost"), nbt::int_tag(n))],
        ),
        component == DataComponent::MapId ==> item_nbt::nbt_form(alone(id, wire::enc_var_int(n)), to) == Some(
            seq![tagged(wire::key("map"), nbt::int_tag(n))],
        ),
        component == DataComponent::Unbreakable ==> item_nbt::nbt_form(alone(id, seq![]), to) == Some(
            seq![tagged(wire::key("Unbreakable"), nbt::byte_tag(1))],
        ),
        component == DataComponent::CustomModelData && -0x100_0000 <= n <= 0x100_0000 ==> item_nbt::nbt_form(
            alone(id, item_component::enc_model(n)),
            to,
        ) == Some(seq![tagged(wire::key("CustomModelData"), nbt::int_tag(n))]),
        component == DataComponent::DyedColor ==> item_nbt::nbt_form(alone(id, wire::enc_i32(n)), to) == Some(
            seq![
                tagged(
                    wire::key("display"),
                    nbt::compound_tag(seq![tagged(wire::key("color"), nbt::int_tag(n))]),
                ),
            ],
        ),
{
    wire::no_piece(wire::enc_var_int(n));
    wire::var_int_round_trip(n, seq![]);
    wire::no_piece(wire::enc_i32(n));
    wire::i32_round_trip(n, seq![]);
    if component == DataComponent::Damage || component == DataComponent::RepairCost || component
        == DataComponent::MapId {
        lemma_plain(component, id, wire::enc_var_int(n), to);
    } else if component == DataComponent::Unbreakable {
        lemma_plain(component, id, seq![], to);
    } else if component == DataComponent::CustomModelData {
        lemma_plain(component, id, item_component::enc_model(n), to);
    } else if component == DataComponent::DyedColor {
        lemma_plain(component, id, wire::enc_i32(n), to);
    }
    match component {
        DataComponent::Damage => lemma_one_tag(
            component,
            id,
            wire::enc_var_int(n),
            to,
            wire::key("Damage"),
            nbt::int_tag(n),
        ),
        DataComponent::RepairCost => lemma_one_tag(
            component,
            id,
            wire::enc_var_int(n),
            to,
            wire::key("RepairCost"),
            nbt::int_tag(n),
        ),
        DataComponent::MapId => lemma_one_tag(
            component,
            id,
            wire::enc_var_int(n),
            to,
            wire::key("map"),
            nbt::int_tag(n),
        ),
        DataComponent::Unbreakable => lemma_one_tag(
            component,
            id,
            seq![],
            to,
            wire::key("Unbreakable"),
            nbt::byte_tag(1),
        ),
        DataComponent::CustomModelData => {
            if -0x100_0000 <= n <= 0x100_0000 {
                item_component::model_values_come_back(n);
                lemma_one_tag(
                    component,
                    id,
                    item_component::enc_model(n),
                    to,
                    wire::key("CustomModelData"),
                    nbt::int_tag(n),
                );
            }
        },
        DataComponent::DyedColor => lemma_displayed(
            component,
            id,
            wire::enc_i32(n),
            to,
            wire::key("color"),
            nbt::int_tag(n),
        ),
        _ => {},
    }
}

// --- texts --------------------------------------------------------------------------------------------------

/// Whether all tags can stand on their own.
pub open spec fn all_whole(tags: Seq<Tag>) -> bool {
    forall|i: int| 0 <= i < tags.len() ==> nbt::is_whole(#[trigger] tags[i])
}

/// The name of a stack is shown as the JSON form of its text.
pub proof fn names_are_shown(id: i32, name: Tag, to: &Target)
    requires
        stands_for(id, DataComponent::CustomName, to),
        nbt::is_whole(name),
    ensures
        item_nbt::nbt_form(alone(id, nbt::enc_nbt(Some(name), false)), to) == Some(
            seq![
                tagged(
                    wire::key("display"),
                    nbt::compound_tag(
                        seq![tagged(wire::key("Name"), nbt::string_tag(target::json_of(to.texts, Some(name))))],
                    ),
                ),
            ],
        ),
{
    let data = nbt::enc_nbt(Some(name), false);
    nbt::tags_read_back(name, false, seq![]);
    wire::no_piece(data);
    lemma_plain(DataComponent::CustomName, id, data, to);
    lemma_displayed(
        DataComponent::CustomName,
        id,
        data,
        to,
        wire::key("Name"),
        nbt::string_tag(target::json_of(to.texts, Some(name))),
    );
}

// --- books ----------------------------------------------------------------------------------------------------

/// Pages of a written book as the server writes them: each a text without a filtered form.
pub open spec fn page_bytes(pages: Seq<Tag>) -> Seq<u8>
    decreases pages.len(),
{
    if pages.len() == 0 {
        seq![]
    } else {
        nbt::enc_nbt(Some(pages[0]), false) + seq![0u8] + page_bytes(pages.drop_first())
    }
}

/// The plain forms of texts, as strings.
pub open spec fn plain_strings(pages: Seq<Tag>, texts: &Texts) -> Seq<Tag> {
    Seq::new(pages.len(), |i: int| nbt::string_tag(target::plain_of(texts, Some(pages[i]))))
}

proof fn lemma_one_page(
    done: Seq<Tag>,
    n: nat,
    page: Tag,
    s: Seq<u8>,
    t: Seq<u8>,
    rest: Seq<u8>,
    texts: &Texts,
)
    requires
        n > 0,
        nbt::take_nbt(s, false) == Some((Some(page), t)),
        wire::take_bool(t) == Some((false, rest)),
    ensures
        item_nbt::take_written_pages(done, n, s, texts) == item_nbt::take_written_pages(
            done.push(nbt::string_tag(target::plain_of(texts, Some(page)))),
            (n - 1) as nat,
            rest,
            texts,
        ),
{
}

#[verifier::spinoff_prover]
#[verifier::rlimit(60)]
proof fn lemma_written_pages(done: Seq<Tag>, pages: Seq<Tag>, rest: Seq<u8>, texts: &Texts)
    requires
        all_whole(pages),
    ensures
        item_nbt::take_written_pages(done, pages.len(), page_bytes(pages) + rest, texts) == Some(
            done + plain_strings(pages, texts),
        ),
    decreases pages.len(),
{
    if pages.len() == 0 {
        assert(done + plain_strings(pages, texts) =~= done);
    } else {
        let tail = pages.drop_first();
        let first = nbt::enc_nbt(Some(pages[0]), false);
        let behind = page_bytes(tail) + rest;
        wire::three_pieces(first, seq![0u8], page_bytes(tail), rest);
        assert(nbt::is_whole(pages[0]));
        nbt::tags_read_back(pages[0], false, seq![0u8] + behind);
        assert((seq![0u8] + behind).skip(1) =~= behind);
        lemma_one_page(
            done,
            pages.len(),
            pages[0],
            page_bytes(pages) + rest,
            seq![0u8] + behind,
            behind,
            texts,
        );
        assert(all_whole(tail)) by {
            assert forall|i: int| 0 <= i < tail.len() implies nbt::is_whole(#[trigger] tail[i]) by {
                assert(tail[i] == pages[i + 1]);
            }
        }
        let page = nbt::string_tag(target::plain_of(texts, Some(pages[0])));
        lemma_written_pages(done.push(page), tail, rest, texts);
        assert(done.push(page) + plain_strings(tail, texts) =~= done + plain_strings(pages, texts));
    }
}

/// What the server writes of a written book: its title without a filtered form, its author,
/// how often it was copied, its pages, and whether they are resolved.
#[verifier::opaque]
pub open spec fn book_bytes(title: Seq<u8>, author: Seq<u8>, generation: i32, pages: Seq<Tag>, end: Seq<u8>) -> Seq<u8> {
    wire::enc_str(title) + seq![0u8] + wire::enc_str(author) + wire::enc_var_int(generation) + wire::enc_var_int(
        pages.len() as i32,
    ) + page_bytes(pages) + end
}

/// Whether a text can be written as a string.
pub open spec fn is_text(text: Seq<u8>) -> bool {
    text.len() <= wire::MAX_STRING_BYTES && vstd::utf8::valid_utf8(text)
}

#[verifier::spinoff_prover]
proof fn lemma_written_book(
    title: Seq<u8>,
    author: Seq<u8>,
    generation: i32,
    pages: Seq<Tag>,
    end: Seq<u8>,
    texts: &Texts,
)
    requires
        is_text(title),
        is_text(author),
        pages.len() <= i32::MAX,
        all_whole(pages),
    ensures
        item_nbt::written_book(book_bytes(title, author, generation, pages, end), texts) == Some(
            (title, author, plain_strings(pages, texts)),
        ),
{
    reveal(book_bytes);
    let count = wire::enc_var_int(pages.len() as i32);
    let copied = wire::enc_var_int(generation);
    let body = page_bytes(pages) + end;
    let a = wire::enc_str(title);
    let b = wire::enc_str(author);
    let s = book_bytes(title, author, generation, pages, end);
    wire::five_pieces(a, seq![0u8], b, copied, count, body);
    wire::two_pieces(a + seq![0u8] + b + copied + count, page_bytes(pages), end);
    let s3 = count + body;
    let s2 = copied + s3;
    let s1 = b + s2;
    assert(s == a + (seq![0u8] + s1));
    wire::str_round_trip(title, seq![0u8] + s1);
    assert((seq![0u8] + s1).skip(1) =~= s1);
    assert(item_nbt::take_filtered_str(s) == Some((title, s1)));
    wire::str_round_trip(author, s2);
    wire::var_int_round_trip(generation, s3);
    wire::var_int_round_trip(pages.len() as i32, body);
    lemma_written_pages(seq![], pages, end, texts);
    assert(Seq::<Tag>::empty() + plain_strings(pages, texts) =~= plain_strings(pages, texts));
}

proof fn lemma_book_names()
    ensures
        wire::key("title").len() == 5,
        wire::key("author").len() == 6,
        wire::key("pages").len() == 5,
        wire::key("resolved").len() == 8,
        wire::key("title")[0] == 116,
        wire::key("pages")[0] == 112,
{
    reveal_strlit("title");
    reveal_strlit("author");
    reveal_strlit("pages");
    reveal_strlit("resolved");
    vstd::utf8::is_ascii_chars_encode_utf8("title"@);
    vstd::utf8::is_ascii_chars_encode_utf8("author"@);
    vstd::utf8::is_ascii_chars_encode_utf8("pages"@);
    vstd::utf8::is_ascii_chars_encode_utf8("resolved"@);
}

proof fn lemma_book_of(id: i32, data: Seq<u8>, root: Seq<Entry>, to: &Target)
    requires
        stands_for(id, DataComponent::WrittenBookContent, to),
        item_nbt::with_written_book(seq![], data, to.texts) == root,
        root.len() > 0,
    ensures
        item_nbt::nbt_form(alone(id, data), to) == Some(root),
{
    lemma_plain(DataComponent::WrittenBookContent, id, data, to);
    lemma_rooted(DataComponent::WrittenBookContent, id, data, to, root);
}

#[verifier::spinoff_prover]
#[verifier::rlimit(60)]
proof fn lemma_shown_book(
    title: Seq<u8>,
    author: Seq<u8>,
    generation: i32,
    pages: Seq<Tag>,
    end: Seq<u8>,
    texts: &Texts,
)
    requires
        is_text(title),
        is_text(author),
        pages.len() <= i32::MAX,
        all_whole(pages),
    ensures
        item_nbt::with_written_book(seq![], book_bytes(title, author, generation, pages, end), texts) == seq![
            tagged(wire::key("title"), nbt::string_tag(title)),
            tagged(wire::key("author"), nbt::string_tag(author)),
            tagged(wire::key("pages"), nbt::list_tag(plain_strings(pages, texts))),
            tagged(wire::key("resolved"), nbt::byte_tag(1)),
        ],
{
    lemma_written_book(title, author, generation, pages, end, texts);
    lemma_book_tags(book_bytes(title, author, generation, pages, end), title, author, plain_strings(pages, texts), texts);
}

#[verifier::spinoff_prover]
#[verifier::rlimit(60)]
proof fn lemma_book_tags(data: Seq<u8>, title: Seq<u8>, author: Seq<u8>, pages: Seq<Tag>, texts: &Texts)
    requires
        item_nbt::written_book(data, texts) == Some((title, author, pages)),
    ensures
        item_nbt::with_written_book(seq![], data, texts) == seq![
            tagged(wire::key("title"), nbt::string_tag(title)),
            tagged(wire::key("author"), nbt::string_tag(author)),
            tagged(wire::key("pages"), nbt::list_tag(pages)),
            tagged(wire::key("resolved"), nbt::byte_tag(1)),
        ],
{
    lemma_book_names();
    let a = tagged(wire::key("title"), nbt::string_tag(title));
    let b = tagged(wire::key("author"), nbt::string_tag(author));
    let c = tagged(wire::key("pages"), nbt::list_tag(pages));
    let d = tagged(wire::key("resolved"), nbt::byte_tag(1));
    lemma_put_one(a);
    lemma_put_two(a, b);
    lemma_put_three(a, b, c);
    lemma_put_four(a, b, c, d);
}

/// A written book shows its title under `title`, its author under `author` and the plain
/// forms of its pages, in their order, under `pages`.
#[verifier::spinoff_prover]
#[verifier::rlimit(60)]
pub proof fn written_books_are_shown(
    id: i32,
    title: Seq<u8>,
    author: Seq<u8>,
    generation: i32,
    pages: Seq<Tag>,
    end: Seq<u8>,
    to: &Target,
)
    requires
        stands_for(id, DataComponent::WrittenBookContent, to),
        is_text(title),
        is_text(author),
        pages.len() <= i32::MAX,
        all_whole(pages),
    ensures
        item_nbt::nbt_form(alone(id, book_bytes(title, author, generation, pages, end)), to) == Some(
            seq![
                tagged(wire::key("title"), nbt::string_tag(title)),
                tagged(wire::key("author"), nbt::string_tag(author)),
                tagged(wire::key("pages"), nbt::list_tag(plain_strings(pages, to.texts))),
                tagged(wire::key("resolved"), nbt::byte_tag(1)),
            ],
        ),
{
    let data = book_bytes(title, author, generation, pages, end);
    lemma_shown_book(title, author, generation, pages, end, to.texts);
    let root = item_nbt::with_written_book(seq![], data, to.texts);
    lemma_book_of(id, data, root, to);
}

// --- books that come back ---------------------------------------------------------------------------------

/// Texts as strings.
pub open spec fn string_tags(texts: Seq<Seq<u8>>) -> Seq<Tag> {
    Seq::new(texts.len(), |i: int| nbt::string_tag(texts[i]))
}

/// Whether texts can be written as strings and read again.
pub open spec fn are_spelled(texts: Seq<Seq<u8>>) -> bool {
    &&& texts.len() <= i32::MAX
    &&& forall|i: int| 0 <= i < texts.len() ==> is_field(#[trigger] texts[i])
}

/// Whether a text can be written as a string and read again.
pub open spec fn is_field(text: Seq<u8>) -> bool {
    nbt::is_spelled(text) && nbt::java(text).len() < 0x1_0000
}

pub proof fn lemma_string(text: Seq<u8>)
    requires
        is_field(text),
    ensures
        nbt::string_of(nbt::string_tag(text)) == Some(text),
        nbt::is_whole(nbt::string_tag(text)),
{
    nbt::strings_read_back(text);
    nbt::strings_are_whole(text);
}

pub proof fn lemma_strings(texts: Seq<Seq<u8>>)
    requires
        are_spelled(texts),
    ensures
        nbt::list_of(nbt::list_tag(string_tags(texts))) == Some(string_tags(texts)),
        nbt::is_whole(nbt::list_tag(string_tags(texts))),
        all_whole(string_tags(texts)),
{
    let tags = string_tags(texts);
    assert forall|i: int| 0 <= i < tags.len() implies nbt::is_whole(#[trigger] tags[i]) && tags[i].kind == tags[0].kind by {
        assert(is_field(texts[i]));
        lemma_string(texts[i]);
    }
    nbt::lists_read_back(tags);
}

proof fn lemma_strings_from(texts: Seq<Seq<u8>>, i: int, done: Seq<Seq<u8>>)
    requires
        are_spelled(texts),
        0 <= i <= texts.len(),
    ensures
        item_nbt::strings_from(string_tags(texts), i, done) == done + texts.skip(i),
    decreases texts.len() - i,
{
    if i < texts.len() {
        assert(is_field(texts[i]));
        lemma_string(texts[i]);
        lemma_strings_from(texts, i + 1, done.push(texts[i]));
        assert(done.push(texts[i]) + texts.skip(i + 1) =~= done + texts.skip(i));
    } else {
        assert(done + texts.skip(i) =~= done);
    }
}

proof fn lemma_page_bytes(pages: Seq<Tag>, last: Tag)
    ensures
        page_bytes(pages.push(last)) == page_bytes(pages) + (nbt::enc_nbt(Some(last), false) + seq![0u8]),
    decreases pages.len(),
{
    let end = nbt::enc_nbt(Some(last), false) + seq![0u8];
    if pages.len() == 0 {
        let all = pages.push(last);
        assert(all.drop_first() =~= seq![]);
        assert(page_bytes(all.drop_first()) == Seq::<u8>::empty());
        wire::no_piece(end);
        wire::no_piece(page_bytes(pages) + end);
    } else {
        let first = nbt::enc_nbt(Some(pages[0]), false) + seq![0u8];
        lemma_page_bytes(pages.drop_first(), last);
        assert(pages.push(last).drop_first() =~= pages.drop_first().push(last));
        wire::two_pieces(first, page_bytes(pages.drop_first()), end);
    }
}

proof fn lemma_pages_written(pages: Seq<Seq<u8>>)
    ensures
        item_nbt::enc_written_pages(pages) == page_bytes(string_tags(pages)),
    decreases pages.len(),
{
    if pages.len() == 0 {
        assert(string_tags(pages) =~= seq![]);
    } else {
        lemma_pages_written(pages.drop_last());
        lemma_page_bytes(string_tags(pages.drop_last()), nbt::string_tag(pages.last()));
        assert(string_tags(pages.drop_last()).push(nbt::string_tag(pages.last())) =~= string_tags(pages));
    }
}

/// A book that a client sends with a title under `title`, an author under `author` and pages
/// under `pages` is, to the server, an original with that title, that author and those pages,
/// which are resolved.
pub proof fn written_books_come_back(
    c: Seq<Entry>,
    title: Seq<u8>,
    author: Seq<u8>,
    pages: Seq<Seq<u8>>,
    version: Version,
    texts: &Texts,
    cat: &Catalog,
)
    requires
        catalog::id_of(cat, DataComponent::WrittenBookContent) != -1,
        nbt::get(c, wire::key("title")) == Some(nbt::string_tag(title)),
        nbt::get(c, wire::key("author")) == Some(nbt::string_tag(author)),
        nbt::get(c, wire::key("pages")) == Some(nbt::list_tag(string_tags(pages))),
        is_field(title),
        is_field(author),
        are_spelled(pages),
        pages.len() > 0,
    ensures
        item_nbt::data_of(
            item_nbt::native_components(c, version, texts, cat),
            DataComponent::WrittenBookContent,
            cat,
        ) == Some(book_bytes(title, author, 0, string_tags(pages), seq![1u8])),
{
    item_round_trip::lemma_written_books_read(c, version, texts, cat);
    lemma_sent_book(c, title, author, pages);
}

#[verifier::spinoff_prover]
#[verifier::rlimit(60)]
proof fn lemma_sent_book(c: Seq<Entry>, title: Seq<u8>, author: Seq<u8>, pages: Seq<Seq<u8>>)
    requires
        nbt::get(c, wire::key("title")) == Some(nbt::string_tag(title)),
        nbt::get(c, wire::key("author")) == Some(nbt::string_tag(author)),
        nbt::get(c, wire::key("pages")) == Some(nbt::list_tag(string_tags(pages))),
        is_field(title),
        is_field(author),
        are_spelled(pages),
        pages.len() > 0,
    ensures
        item_nbt::written_book_native(c) == Some(book_bytes(title, author, 0, string_tags(pages), seq![1u8])),
{
    reveal(book_bytes);
    lemma_string(title);
    lemma_string(author);
    lemma_strings(pages);
    lemma_strings_from(pages, 0, seq![]);
    assert(Seq::<Seq<u8>>::empty() + pages.skip(0) =~= pages);
    assert(item_nbt::strings_under(c, wire::key("pages")) == pages);
    lemma_pages_written(pages);
    assert(wire::enc_var_int(0) =~= seq![0u8]);
    assert(item_nbt::enc_count(pages.len()) == wire::enc_var_int(pages.len() as i32));
}

// --- equipment ---------------------------------------------------------------------------------------------

pub proof fn lemma_root_of(component: DataComponent, id: i32, data: Seq<u8>, root: Seq<Entry>, to: &Target)
    requires
        stands_for(id, component, to),
        component != DataComponent::CustomData,
        component != DataComponent::ChargedProjectiles,
        component != DataComponent::BundleContents,
        component != DataComponent::Container,
        item_nbt::drafted_plain(blank(), component, data, alone(id, data), to) == item_nbt::rooted(blank(), root),
        root.len() > 0,
    ensures
        item_nbt::nbt_form(alone(id, data), to) == Some(root),
{
    lemma_plain(component, id, data, to);
    lemma_rooted(component, id, data, to, root);
}

pub proof fn lemma_words()
    ensures
        wire::key("material").len() == 8,
        wire::key("pattern").len() == 7,
        wire::key("id").len() == 2,
        wire::key("lvl").len() == 3,
        wire::key("Potion").len() == 6,
        wire::key("CustomPotionColor").len() == 17,
        wire::key("CustomPotionEffects").len() == 19,
        wire::key("Amplifier").len() == 9,
        wire::key("Duration").len() == 8,
        wire::key("Ambient").len() == 7,
        wire::key("ShowParticles").len() == 13,
        wire::key("ShowIcon").len() == 8,
        wire::key("Duration")[0] == 68,
        wire::key("ShowIcon")[0] == 83,
        wire::key("Id").len() == 2,
        wire::key("AttributeName").len() == 13,
        wire::key("Name").len() == 4,
        wire::key("Amount").len() == 6,
        wire::key("Operation").len() == 9,
        wire::key("UUID").len() == 4,
        wire::key("Name")[0] == 78,
        wire::key("UUID")[0] == 85,
        wire::key("Slot").len() == 4,
        wire::key("Slot")[0] == 83,
        wire::key("Value").len() == 5,
        wire::key("Signature").len() == 9,
        wire::key("Properties").len() == 10,
{
    reveal_strlit("material");
    reveal_strlit("pattern");
    reveal_strlit("id");
    reveal_strlit("lvl");
    reveal_strlit("Potion");
    reveal_strlit("CustomPotionColor");
    reveal_strlit("CustomPotionEffects");
    reveal_strlit("Amplifier");
    reveal_strlit("Duration");
    reveal_strlit("Ambient");
    reveal_strlit("ShowParticles");
    reveal_strlit("ShowIcon");
    reveal_strlit("Id");
    reveal_strlit("AttributeName");
    reveal_strlit("Name");
    reveal_strlit("Amount");
    reveal_strlit("Operation");
    reveal_strlit("UUID");
    reveal_strlit("Slot");
    reveal_strlit("Value");
    reveal_strlit("Signature");
    reveal_strlit("Properties");
    vstd::utf8::is_ascii_chars_encode_utf8("material"@);
    vstd::utf8::is_ascii_chars_encode_utf8("pattern"@);
    vstd::utf8::is_ascii_chars_encode_utf8("id"@);
    vstd::utf8::is_ascii_chars_encode_utf8("lvl"@);
    vstd::utf8::is_ascii_chars_encode_utf8("Potion"@);
    vstd::utf8::is_ascii_chars_encode_utf8("CustomPotionColor"@);
    vstd::utf8::is_ascii_chars_encode_utf8("CustomPotionEffects"@);
    vstd::utf8::is_ascii_chars_encode_utf8("Amplifier"@);
    vstd::utf8::is_ascii_chars_encode_utf8("Duration"@);
    vstd::utf8::is_ascii_chars_encode_utf8("Ambient"@);
    vstd::utf8::is_ascii_chars_encode_utf8("ShowParticles"@);
    vstd::utf8::is_ascii_chars_encode_utf8("ShowIcon"@);
    vstd::utf8::is_ascii_chars_encode_utf8("Id"@);
    vstd::utf8::is_ascii_chars_encode_utf8("AttributeName"@);
    vstd::utf8::is_ascii_chars_encode_utf8("Name"@);
    vstd::utf8::is_ascii_chars_encode_utf8("Amount"@);
    vstd::utf8::is_ascii_chars_encode_utf8("Operation"@);
    vstd::utf8::is_ascii_chars_encode_utf8("UUID"@);
    vstd::utf8::is_ascii_chars_encode_utf8("Slot"@);
    vstd::utf8::is_ascii_chars_encode_utf8("Value"@);
    vstd::utf8::is_ascii_chars_encode_utf8("Signature"@);
    vstd::utf8::is_ascii_chars_encode_utf8("Properties"@);
}

/// The holders of a trim, each one more than its number, become the names of its material and
/// of its pattern, from 1.20 on.
pub proof fn trims_are_shown(id: i32, material: i32, pattern: i32, material_name: Seq<u8>, pattern_name: Seq<u8>, to: &Target)
    requires
        stands_for(id, DataComponent::Trim, to),
        to.version >= version::V_1_20,
        0 <= material < i32::MAX,
        0 <= pattern < i32::MAX,
        catalog::entry_name(to.cat, version::V_26_3, wire::key("trim_material"), material) == Some(material_name),
        catalog::entry_name(to.cat, version::V_26_3, wire::key("trim_pattern"), pattern) == Some(pattern_name),
    ensures
        item_nbt::nbt_form(
            alone(id, wire::enc_var_int((material + 1) as i32) + wire::enc_var_int((pattern + 1) as i32)),
            to,
        ) == Some(
            seq![
                tagged(
                    wire::key("Trim"),
                    nbt::compound_tag(
                        seq![
                            tagged(
                                wire::key("material"),
                                nbt::string_tag(wire::key("minecraft:") + material_name),
                            ),
                            tagged(wire::key("pattern"), nbt::string_tag(wire::key("minecraft:") + pattern_name)),
                        ],
                    ),
                ),
            ],
        ),
{
    let a = wire::enc_var_int((material + 1) as i32);
    let b = wire::enc_var_int((pattern + 1) as i32);
    wire::var_int_round_trip((material + 1) as i32, b);
    wire::no_piece(b);
    wire::var_int_round_trip((pattern + 1) as i32, seq![]);
    lemma_trim(a + b, (material + 1) as i32, (pattern + 1) as i32, b, material_name, pattern_name, to);
    let m = tagged(wire::key("material"), nbt::string_tag(text::namespaced(material_name)));
    let p = tagged(wire::key("pattern"), nbt::string_tag(text::namespaced(pattern_name)));
    let trim = tagged(wire::key("Trim"), nbt::compound_tag(seq![m, p]));
    lemma_trim_of(id, a + b, seq![trim], to);
}

proof fn lemma_trim_of(id: i32, data: Seq<u8>, root: Seq<Entry>, to: &Target)
    requires
        stands_for(id, DataComponent::Trim, to),
        item_nbt::with_trim(blank(), data, to) == item_nbt::rooted(blank(), root),
        root.len() > 0,
    ensures
        item_nbt::nbt_form(alone(id, data), to) == Some(root),
{
    lemma_root_of(DataComponent::Trim, id, data, root, to);
}

proof fn lemma_trim(
    data: Seq<u8>,
    material: i32,
    pattern: i32,
    rest: Seq<u8>,
    material_name: Seq<u8>,
    pattern_name: Seq<u8>,
    to: &Target,
)
    requires
        to.version >= version::V_1_20,
        material > i32::MIN,
        pattern > i32::MIN,
        wire::take_var_int(data) == Some((material, rest)),
        wire::take_var_int(rest) == Some((pattern, Seq::<u8>::empty())),
        catalog::entry_name(to.cat, version::V_26_3, wire::key("trim_material"), (material - 1) as i32) == Some(
            material_name,
        ),
        catalog::entry_name(to.cat, version::V_26_3, wire::key("trim_pattern"), (pattern - 1) as i32) == Some(
            pattern_name,
        ),
    ensures
        ({
            let m = tagged(wire::key("material"), nbt::string_tag(text::namespaced(material_name)));
            let p = tagged(wire::key("pattern"), nbt::string_tag(text::namespaced(pattern_name)));
            item_nbt::with_trim(blank(), data, to) == item_nbt::rooted(
                blank(),
                seq![tagged(wire::key("Trim"), nbt::compound_tag(seq![m, p]))],
            )
        }),
{
    lemma_words();
    let m = tagged(wire::key("material"), nbt::string_tag(text::namespaced(material_name)));
    let p = tagged(wire::key("pattern"), nbt::string_tag(text::namespaced(pattern_name)));
    lemma_put_one(m);
    lemma_put_two(m, p);
    lemma_put_one(tagged(wire::key("Trim"), nbt::compound_tag(seq![m, p])));
}

/// The holder of an instrument, one more than its number, becomes its name.
pub proof fn instruments_are_shown(id: i32, instrument: i32, name: Seq<u8>, to: &Target)
    requires
        stands_for(id, DataComponent::Instrument, to),
        0 <= instrument < i32::MAX,
        catalog::entry_name(to.cat, version::V_26_3, wire::key("instrument"), instrument) == Some(name),
    ensures
        item_nbt::nbt_form(alone(id, wire::enc_var_int((instrument + 1) as i32)), to) == Some(
            seq![tagged(wire::key("instrument"), nbt::string_tag(wire::key("minecraft:") + name))],
        ),
{
    let a = wire::enc_var_int((instrument + 1) as i32);
    wire::no_piece(a);
    wire::var_int_round_trip((instrument + 1) as i32, seq![]);
    lemma_instrument(id, a, (instrument + 1) as i32, name, to);
}

proof fn lemma_instrument(id: i32, data: Seq<u8>, holder: i32, name: Seq<u8>, to: &Target)
    requires
        stands_for(id, DataComponent::Instrument, to),
        holder > i32::MIN,
        wire::take_var_int(data) == Some((holder, Seq::<u8>::empty())),
        catalog::entry_name(to.cat, version::V_26_3, wire::key("instrument"), (holder - 1) as i32) == Some(name),
    ensures
        item_nbt::nbt_form(alone(id, data), to) == Some(
            seq![tagged(wire::key("instrument"), nbt::string_tag(text::namespaced(name)))],
        ),
{
    let tag = tagged(wire::key("instrument"), nbt::string_tag(text::namespaced(name)));
    lemma_put_one(tag);
    lemma_root_of(DataComponent::Instrument, id, data, seq![tag], to);
}

// --- enchantments --------------------------------------------------------------------------------------------

/// Enchantments and their levels, one behind the other.
pub open spec fn pair_bytes(pairs: Seq<(i32, i32)>) -> Seq<u8>
    decreases pairs.len(),
{
    if pairs.len() == 0 {
        seq![]
    } else {
        wire::enc_var_int(pairs[0].0) + wire::enc_var_int(pairs[0].1) + pair_bytes(pairs.drop_first())
    }
}

/// Whether a client knows enchantments under names, and their levels fit.
pub open spec fn are_known(pairs: Seq<(i32, i32)>, names: Seq<Seq<u8>>, to: &Target) -> bool {
    &&& 0 < pairs.len() == names.len() <= i32::MAX
    &&& forall|i: int|
        0 <= i < pairs.len() ==> 0 <= (#[trigger] pairs[i]).1 <= 0x7fff && (item_nbt::enchantment_key(
            to.cat,
            pairs[i].0,
        ) matches Some(key) && item_nbt::legacy_enchantment(key, to.version) == Some(names[i]))
}

/// An enchantment by its name and its level.
pub open spec fn enchantment_of(name: Seq<u8>, level: i32) -> Tag {
    nbt::compound_tag(
        seq![
            tagged(wire::key("id"), nbt::string_tag(wire::key("minecraft:") + name)),
            tagged(wire::key("lvl"), nbt::short_tag(level as u16)),
        ],
    )
}

proof fn lemma_pairs(done: Seq<(i32, i32)>, pairs: Seq<(i32, i32)>)
    ensures
        item_nbt::take_pairs(done, pairs.len(), pair_bytes(pairs)) == Some(done + pairs),
    decreases pairs.len(),
{
    if pairs.len() == 0 {
        assert(done + pairs =~= done);
    } else {
        let tail = pairs.drop_first();
        let a = wire::enc_var_int(pairs[0].0);
        let b = wire::enc_var_int(pairs[0].1);
        wire::two_pieces(a, b, pair_bytes(tail));
        wire::var_int_round_trip(pairs[0].0, b + pair_bytes(tail));
        wire::var_int_round_trip(pairs[0].1, pair_bytes(tail));
        lemma_pairs(done.push(pairs[0]), tail);
        assert(done.push(pairs[0]) + tail =~= done + pairs);
    }
}

#[verifier::spinoff_prover]
proof fn lemma_split(pairs: Seq<(i32, i32)>, names: Seq<Seq<u8>>, i: int, tags: Seq<Tag>, to: &Target)
    requires
        are_known(pairs, names, to),
        0 <= i <= pairs.len(),
        tags == Seq::new(i as nat, |k: int| enchantment_of(names[k], pairs[k].1)),
    ensures
        item_nbt::enchantments_split(pairs, i, tags, seq![], to.version, to.cat) == (
            Seq::new(pairs.len(), |k: int| enchantment_of(names[k], pairs[k].1)),
            Seq::<Tag>::empty(),
        ),
    decreases pairs.len() - i,
{
    if i < pairs.len() {
        let (e, level) = pairs[i];
        assert(pairs[i].1 == level);
        lemma_words();
        let a = tagged(wire::key("id"), nbt::string_tag(text::namespaced(names[i])));
        let b = tagged(wire::key("lvl"), nbt::short_tag(level as u16));
        lemma_put_one(a);
        lemma_put_two(a, b);
        assert(item_nbt::enchantment_tag(names[i], level) == enchantment_of(names[i], level));
        let next = tags.push(enchantment_of(names[i], level));
        assert(next =~= Seq::new((i + 1) as nat, |k: int| enchantment_of(names[k], pairs[k].1)));
        lemma_split(pairs, names, i + 1, next, to);
    } else {
        assert(tags =~= Seq::new(pairs.len(), |k: int| enchantment_of(names[k], pairs[k].1)));
    }
}

/// Enchantments that a client knows are shown by their names, in their order and with their
/// levels: those of a book under `StoredEnchantments`, others under `Enchantments`.
pub proof fn enchantments_are_shown(id: i32, stored: bool, pairs: Seq<(i32, i32)>, names: Seq<Seq<u8>>, to: &Target)
    requires
        stands_for(
            id,
            if stored {
                DataComponent::StoredEnchantments
            } else {
                DataComponent::Enchantments
            },
            to,
        ),
        are_known(pairs, names, to),
    ensures
        item_nbt::nbt_form(alone(id, wire::enc_var_int(pairs.len() as i32) + pair_bytes(pairs)), to) == Some(
            seq![
                tagged(
                    if stored {
                        wire::key("StoredEnchantments")
                    } else {
                        wire::key("Enchantments")
                    },
                    nbt::list_tag(Seq::new(pairs.len(), |k: int| enchantment_of(names[k], pairs[k].1))),
                ),
            ],
        ),
{
    let n = pairs.len() as i32;
    let data = wire::enc_var_int(n) + pair_bytes(pairs);
    wire::var_int_round_trip(n, pair_bytes(pairs));
    lemma_pairs(seq![], pairs);
    assert(Seq::<(i32, i32)>::empty() + pairs =~= pairs);
    assert(Seq::<Tag>::empty() =~= Seq::new(0nat, |k: int| enchantment_of(names[k], pairs[k].1)));
    lemma_split(pairs, names, 0, seq![], to);
    let tags = Seq::new(pairs.len(), |k: int| enchantment_of(names[k], pairs[k].1));
    let component = if stored {
        DataComponent::StoredEnchantments
    } else {
        DataComponent::Enchantments
    };
    let name = if stored {
        wire::key("StoredEnchantments")
    } else {
        wire::key("Enchantments")
    };
    let tag = tagged(name, nbt::list_tag(tags));
    lemma_put_one(tag);
    lemma_root_of(component, id, data, seq![tag], to);
}

// --- equipment that comes back ---------------------------------------------------------------------------------

proof fn lemma_prefix(name: Seq<u8>)
    ensures
        text::bare(wire::key("minecraft:") + name) == name,
{
    let prefix = wire::key("minecraft:");
    assert((prefix + name).take(prefix.len() as int) =~= prefix);
    assert(prefix.is_prefix_of(prefix + name));
    assert((prefix + name).skip(prefix.len() as int) =~= name);
}

proof fn lemma_pair(a: Entry, b: Entry)
    requires
        a.name != b.name,
        a.name.len() < 0x1_0000,
        b.name.len() < 0x1_0000,
        nbt::is_whole(a.tag),
        nbt::is_whole(b.tag),
    ensures
        nbt::compound_of(nbt::compound_tag(seq![a, b])) == Some(seq![a, b]),
        nbt::get(seq![a, b], a.name) == Some(a.tag),
        nbt::get(seq![a, b], b.name) == Some(b.tag),
        nbt::is_whole(nbt::compound_tag(seq![a, b])),
{
    assert(nbt::is_compound(seq![a, b]));
    nbt::compounds_read_back(seq![a, b]);
    lemma_put_one(a);
    lemma_put_two(a, b);
    nbt::put_entries_are_found(seq![a], b.name, b.tag);
    nbt::put_entries_leave_the_rest(seq![a], b.name, b.tag, a.name);
    nbt::put_entries_are_found(seq![], a.name, a.tag);
}

/// A trim that a client sends by the names of its material and of its pattern is, to the
/// server, the holders of both, each one more than its number, the material before the
/// pattern.
pub proof fn trims_come_back(
    c: Seq<Entry>,
    material: Seq<u8>,
    pattern: Seq<u8>,
    material_id: i32,
    pattern_id: i32,
    version: Version,
    texts: &Texts,
    cat: &Catalog,
)
    requires
        catalog::id_of(cat, DataComponent::Trim) != -1,
        nbt::get(c, wire::key("Trim")) == Some(
            nbt::compound_tag(
                seq![
                    tagged(wire::key("material"), nbt::string_tag(wire::key("minecraft:") + material)),
                    tagged(wire::key("pattern"), nbt::string_tag(wire::key("minecraft:") + pattern)),
                ],
            ),
        ),
        is_field(wire::key("minecraft:") + material),
        is_field(wire::key("minecraft:") + pattern),
        catalog::entry_id(cat, version::V_26_3, wire::key("trim_material"), material) == Some(material_id),
        catalog::entry_id(cat, version::V_26_3, wire::key("trim_pattern"), pattern) == Some(pattern_id),
        0 <= material_id < i32::MAX,
        0 <= pattern_id < i32::MAX,
    ensures
        item_nbt::data_of(item_nbt::native_components(c, version, texts, cat), DataComponent::Trim, cat) == Some(
            wire::enc_var_int((material_id + 1) as i32) + wire::enc_var_int((pattern_id + 1) as i32),
        ),
{
    item_round_trip::lemma_trims_read(c, version, texts, cat);
    lemma_sent_trim(c, material, pattern, material_id, pattern_id, cat);
}

proof fn lemma_sent_trim(
    c: Seq<Entry>,
    material: Seq<u8>,
    pattern: Seq<u8>,
    material_id: i32,
    pattern_id: i32,
    cat: &Catalog,
)
    requires
        nbt::get(c, wire::key("Trim")) == Some(
            nbt::compound_tag(
                seq![
                    tagged(wire::key("material"), nbt::string_tag(wire::key("minecraft:") + material)),
                    tagged(wire::key("pattern"), nbt::string_tag(wire::key("minecraft:") + pattern)),
                ],
            ),
        ),
        is_field(wire::key("minecraft:") + material),
        is_field(wire::key("minecraft:") + pattern),
        catalog::entry_id(cat, version::V_26_3, wire::key("trim_material"), material) == Some(material_id),
        catalog::entry_id(cat, version::V_26_3, wire::key("trim_pattern"), pattern) == Some(pattern_id),
        0 <= material_id < i32::MAX,
        0 <= pattern_id < i32::MAX,
    ensures
        item_nbt::trim_native(c, cat) == Some(
            wire::enc_var_int((material_id + 1) as i32) + wire::enc_var_int((pattern_id + 1) as i32),
        ),
{
    lemma_words();
    let a = tagged(wire::key("material"), nbt::string_tag(wire::key("minecraft:") + material));
    let b = tagged(wire::key("pattern"), nbt::string_tag(wire::key("minecraft:") + pattern));
    lemma_string(wire::key("minecraft:") + material);
    lemma_string(wire::key("minecraft:") + pattern);
    lemma_pair(a, b);
    lemma_prefix(material);
    lemma_prefix(pattern);
}

/// An enchantment that a client sends by its name and its level is, to the server, its number
/// and its level.
pub proof fn enchantments_come_back(
    c: Seq<Entry>,
    name: Seq<u8>,
    id: i32,
    level: i32,
    version: Version,
    texts: &Texts,
    cat: &Catalog,
)
    requires
        catalog::id_of(cat, DataComponent::Enchantments) != -1,
        nbt::get(c, wire::key("Enchantments")) == Some(nbt::list_tag(seq![enchantment_of(name, level)])),
        is_field(wire::key("minecraft:") + name),
        item_nbt::enchantment_id(cat, wire::key("minecraft:") + name) == Some(id),
        0 <= level <= 0x7fff,
    ensures
        item_nbt::data_of(item_nbt::native_components(c, version, texts, cat), DataComponent::Enchantments, cat)
            == Some(seq![1u8] + (wire::enc_var_int(id) + wire::enc_var_int(level))),
{
    item_round_trip::lemma_enchantments_read(c, version, texts, cat);
    lemma_sent_enchantment(c, name, id, level, cat);
}

proof fn lemma_sent_enchantment(c: Seq<Entry>, name: Seq<u8>, id: i32, level: i32, cat: &Catalog)
    requires
        nbt::get(c, wire::key("Enchantments")) == Some(nbt::list_tag(seq![enchantment_of(name, level)])),
        is_field(wire::key("minecraft:") + name),
        item_nbt::enchantment_id(cat, wire::key("minecraft:") + name) == Some(id),
        0 <= level <= 0x7fff,
    ensures
        item_nbt::enchantments_under(c, wire::key("Enchantments"), cat) == Some(
            seq![1u8] + (wire::enc_var_int(id) + wire::enc_var_int(level)),
        ),
{
    lemma_words();
    let a = tagged(wire::key("id"), nbt::string_tag(wire::key("minecraft:") + name));
    let b = tagged(wire::key("lvl"), nbt::short_tag(level as u16));
    lemma_string(wire::key("minecraft:") + name);
    assert(nbt::is_whole(b.tag)) by {
        assert(b.tag.payload.skip(2) =~= seq![]);
    }
    lemma_pair(a, b);
    let tag = enchantment_of(name, level);
    nbt::lists_read_back(seq![tag]);
    let s = wire::enc_u16(level as u16);
    assert(wire::take_u16(s) matches Some((n, t)) && n == level);
    assert(nbt::int_like(b.tag) == Some(level));
    let pair = (id, level);
    assert(item_nbt::enchantment_from(tag, cat) == Some(pair));
    let none = Seq::<(i32, i32)>::empty();
    assert(none.push(pair) =~= seq![pair]);
    assert(item_nbt::enchantments_from(seq![tag], 1, seq![pair], cat) == seq![pair]);
    assert(item_nbt::enchantments_from(seq![tag], 0, none, cat) == seq![pair]);
    assert(seq![pair].drop_last() =~= none);
    let number = wire::enc_var_int(id);
    wire::no_piece(number);
    assert(item_component::enc_pairs(none) == Seq::<u8>::empty());
    assert(item_component::enc_pairs(seq![pair]) == number + wire::enc_var_int(level));
    assert(wire::enc_var_int(1) =~= seq![1u8]);
}

} // verus!
