//! What a client's form of a stack loses, kept on the connection until the stack
//! comes back.
use vstd::prelude::*;
use crate::catalog;
use crate::catalog::Catalog;
use crate::catalog::DataComponent;
use crate::connection::UserConnection;
use crate::hash;
use crate::item;
use crate::item_nbt;
use crate::item_round_trip;
use crate::mapping;
use crate::nbt;
use crate::nbt::Entry;
use crate::nbt::NbtCompound;
use crate::nbt::NbtTag;
use crate::nbt::Tag;
use crate::order;
use crate::target::Target;
use crate::types;
use crate::types::Component;
use crate::types::Item;
use crate::types::ItemComponent;
use crate::types::Stack;
use crate::version;
use crate::wire;

verus! {

/// The entries of a connection's cache.
pub const CACHE_LIMIT: usize = 1024;

// --- backups ---------------------------------------------------------------------------------------

/// What a stack lost on its way to a client, and what the client's form added.
pub struct ItemBackup {
    pub server_item_id: i32,
    pub server_has_custom_data: bool,
    pub restore_added: Vec<ItemComponent>,
    pub restore_added_hashes: Vec<(i32, i32)>,
    pub restore_removed: Vec<i32>,
    pub remove_server_added: Vec<i32>,
    pub remove_server_removed: Vec<i32>,
}

/// The mathematical form of a backup.
#[verifier::ext_equal]
pub struct Backup {
    pub server_item_id: i32,
    pub server_has_custom_data: bool,
    pub restore_added: Seq<Component>,
    pub restore_added_hashes: Seq<(i32, i32)>,
    pub restore_removed: Seq<i32>,
    pub remove_server_added: Seq<i32>,
    pub remove_server_removed: Seq<i32>,
}

impl View for ItemBackup {
    type V = Backup;

    open spec fn view(&self) -> Backup {
        Backup {
            server_item_id: self.server_item_id,
            server_has_custom_data: self.server_has_custom_data,
            restore_added: types::component_views(self.restore_added@),
            restore_added_hashes: self.restore_added_hashes@,
            restore_removed: self.restore_removed@,
            remove_server_added: self.remove_server_added@,
            remove_server_removed: self.remove_server_removed@,
        }
    }
}

fn same_ids(a: &Vec<i32>, b: &Vec<i32>) -> (res: bool)
    ensures
        res == (a@ == b@),
{
    if a.len() != b.len() {
        return false;
    }
    let mut i: usize = 0;
    while i < a.len()
        invariant
            i <= a.len(),
            a.len() == b.len(),
            forall|j: int| 0 <= j < i ==> a@[j] == b@[j],
        decreases a.len() - i,
    {
        if a[i] != b[i] {
            assert(a@[i as int] != b@[i as int]);
            return false;
        }
        i = i + 1;
    }
    assert(a@ =~= b@);
    true
}

fn same_hashes(a: &Vec<(i32, i32)>, b: &Vec<(i32, i32)>) -> (res: bool)
    ensures
        res == (a@ == b@),
{
    if a.len() != b.len() {
        return false;
    }
    let mut i: usize = 0;
    while i < a.len()
        invariant
            i <= a.len(),
            a.len() == b.len(),
            forall|j: int| 0 <= j < i ==> a@[j] == b@[j],
        decreases a.len() - i,
    {
        let (x, u): (i32, i32) = a[i];
        let (y, v): (i32, i32) = b[i];
        if x != y || u != v {
            assert(a@[i as int] != b@[i as int]);
            return false;
        }
        i = i + 1;
    }
    assert(a@ =~= b@);
    true
}

fn same_components(a: &Vec<ItemComponent>, b: &Vec<ItemComponent>) -> (res: bool)
    ensures
        res == (types::component_views(a@) == types::component_views(b@)),
{
    if a.len() != b.len() {
        assert(types::component_views(a@).len() != types::component_views(b@).len());
        return false;
    }
    let mut i: usize = 0;
    while i < a.len()
        invariant
            i <= a.len(),
            a.len() == b.len(),
            forall|j: int| 0 <= j < i ==> (#[trigger] a@[j])@ == b@[j]@,
        decreases a.len() - i,
    {
        if a[i].id != b[i].id || !wire::same_bytes(a[i].data.as_slice(), b[i].data.as_slice()) {
            assert(types::component_views(a@)[i as int] != types::component_views(b@)[i as int]);
            return false;
        }
        assert(a@[i as int]@ == b@[i as int]@);
        i = i + 1;
    }
    assert(types::component_views(a@) =~= types::component_views(b@));
    true
}

impl ItemBackup {
    pub fn same(&self, other: &ItemBackup) -> (res: bool)
        ensures
            res == (self@ == other@),
    {
        self.server_item_id == other.server_item_id && self.server_has_custom_data
            == other.server_has_custom_data && same_components(&self.restore_added, &other.restore_added)
            && same_hashes(&self.restore_added_hashes, &other.restore_added_hashes) && same_ids(
            &self.restore_removed,
            &other.restore_removed,
        ) && same_ids(&self.remove_server_added, &other.remove_server_added) && same_ids(
            &self.remove_server_removed,
            &other.remove_server_removed,
        )
    }
}

// --- the cache ---------------------------------------------------------------------------------------

/// An entry: the client's item and the hash of its custom data, with the backup;
/// none where two stacks have met under the key.
pub struct CacheRow {
    pub item: i32,
    pub hash: i32,
    pub backup: Option<ItemBackup>,
}

#[verifier::ext_equal]
pub struct Row {
    pub item: i32,
    pub hash: i32,
    pub backup: Option<Backup>,
}

impl View for CacheRow {
    type V = Row;

    open spec fn view(&self) -> Row {
        Row {
            item: self.item,
            hash: self.hash,
            backup: match self.backup {
                Some(backup) => Some(backup@),
                None => None,
            },
        }
    }
}

/// Backups by key, the least recently recorded first. The cache is bounded and has
/// no key twice.
pub struct ItemBackupCache {
    rows: Vec<CacheRow>,
}

impl View for ItemBackupCache {
    type V = Seq<Row>;

    closed spec fn view(&self) -> Seq<Row> {
        views(self.rows@)
    }
}

spec fn views(rows: Seq<CacheRow>) -> Seq<Row> {
    Seq::new(rows.len(), |i: int| rows[i]@)
}

pub open spec fn row_from(rows: Seq<Row>, item: i32, hash: i32, i: int) -> Option<int>
    decreases rows.len() - i,
{
    if i < 0 || i >= rows.len() {
        None
    } else if rows[i].item == item && rows[i].hash == hash {
        Some(i)
    } else {
        row_from(rows, item, hash, i + 1)
    }
}

/// The backup under a key.
pub open spec fn cached(rows: Seq<Row>, item: i32, hash: i32) -> Option<Backup> {
    match row_from(rows, item, hash, 0) {
        Some(i) => rows[i].backup,
        None => None,
    }
}

/// The newest entries, as many as the cache holds.
pub open spec fn newest(rows: Seq<Row>) -> Seq<Row> {
    if rows.len() > CACHE_LIMIT {
        rows.skip(rows.len() - CACHE_LIMIT)
    } else {
        rows
    }
}

/// The cache with a backup under a key. Where another backup stands under the key
/// neither can be told from the other, and the key is left without one.
pub open spec fn recorded(rows: Seq<Row>, item: i32, hash: i32, backup: Backup) -> Seq<Row> {
    match row_from(rows, item, hash, 0) {
        Some(i) => newest(
            rows.remove(i).push(
                Row {
                    item,
                    hash,
                    backup: if rows[i].backup == Some(backup) {
                        Some(backup)
                    } else {
                        None
                    },
                },
            ),
        ),
        None => newest(rows.push(Row { item, hash, backup: Some(backup) })),
    }
}

/// The cache is bounded and has no key twice.
pub open spec fn well_formed(rows: Seq<Row>) -> bool {
    &&& rows.len() <= CACHE_LIMIT
    &&& forall|i: int, j: int|
        0 <= i < j < rows.len() ==> #[trigger] rows[i].item != #[trigger] rows[j].item || rows[i].hash
            != rows[j].hash
}

proof fn lemma_row(rows: Seq<Row>, item: i32, hash: i32, i: int)
    requires
        0 <= i <= rows.len(),
    ensures
        match row_from(rows, item, hash, i) {
            Some(k) => i <= k < rows.len() && rows[k].item == item && rows[k].hash == hash,
            None => forall|j: int|
                i <= j < rows.len() ==> (#[trigger] rows[j]).item != item || rows[j].hash != hash,
        },
    decreases rows.len() - i,
{
    if i < rows.len() && !(rows[i].item == item && rows[i].hash == hash) {
        lemma_row(rows, item, hash, i + 1);
    }
}

proof fn lemma_row_is(rows: Seq<Row>, item: i32, hash: i32, i: int, k: int)
    requires
        well_formed(rows),
        0 <= i <= k < rows.len(),
        rows[k].item == item,
        rows[k].hash == hash,
    ensures
        row_from(rows, item, hash, i) == Some(k),
    decreases rows.len() - i,
{
    if i < k {
        assert(rows[i].item != rows[k].item || rows[i].hash != rows[k].hash);
        lemma_row_is(rows, item, hash, i + 1, k);
    }
}

/// Recording a backup keeps the cache bounded and its keys apart.
pub proof fn recording_keeps_the_cache_bounded(rows: Seq<Row>, item: i32, hash: i32, backup: Backup)
    requires
        well_formed(rows),
    ensures
        well_formed(recorded(rows, item, hash, backup)),
{
    lemma_row(rows, item, hash, 0);
    let grown = match row_from(rows, item, hash, 0) {
        Some(k) => rows.remove(k),
        None => rows,
    };
    assert forall|i: int, j: int| 0 <= i < j < grown.len() implies #[trigger] grown[i].item
        != #[trigger] grown[j].item || grown[i].hash != grown[j].hash by {
        if let Some(k) = row_from(rows, item, hash, 0) {
            let a = if i < k { i } else { i + 1 };
            let b = if j < k { j } else { j + 1 };
            assert(rows[a].item != rows[b].item || rows[a].hash != rows[b].hash);
        }
    }
    assert forall|i: int| 0 <= i < grown.len() implies (#[trigger] grown[i]).item != item || grown[i].hash != hash by {
        if let Some(k) = row_from(rows, item, hash, 0) {
            let a = if i < k { i } else { i + 1 };
            assert(rows[a].item != rows[k].item || rows[a].hash != rows[k].hash);
        }
    }
}

/// A backup that was recorded under a new key, or once more under its own, is
/// found there.
pub proof fn a_recorded_backup_is_found(rows: Seq<Row>, item: i32, hash: i32, backup: Backup)
    requires
        well_formed(rows),
        match row_from(rows, item, hash, 0) {
            Some(i) => rows[i].backup == Some(backup),
            None => true,
        },
    ensures
        cached(recorded(rows, item, hash, backup), item, hash) == Some(backup),
{
    recording_keeps_the_cache_bounded(rows, item, hash, backup);
    lemma_row(rows, item, hash, 0);
    let after = recorded(rows, item, hash, backup);
    lemma_row_is(after, item, hash, 0, after.len() - 1);
}

/// Two backups that meet under one key leave no backup there.
pub proof fn colliding_backups_are_never_restored(rows: Seq<Row>, item: i32, hash: i32, first: Backup, second: Backup)
    requires
        well_formed(rows),
        cached(rows, item, hash) == Some(first),
        first != second,
    ensures
        cached(recorded(rows, item, hash, second), item, hash) is None,
{
    recording_keeps_the_cache_bounded(rows, item, hash, second);
    lemma_row(rows, item, hash, 0);
    let after = recorded(rows, item, hash, second);
    lemma_row_is(after, item, hash, 0, after.len() - 1);
}

impl ItemBackupCache {
    #[verifier::type_invariant]
    spec fn invariant_of_rows(&self) -> bool {
        well_formed(views(self.rows@))
    }

    pub fn new() -> (res: ItemBackupCache)
        ensures
            res@ == Seq::<Row>::empty(),
            well_formed(res@),
    {
        let rows: Vec<CacheRow> = Vec::new();
        assert(views(rows@) =~= Seq::<Row>::empty());
        ItemBackupCache { rows }
    }

    #[verifier::loop_isolation(false)]
    fn find(rows: &Vec<CacheRow>, item: i32, hash: i32) -> (res: Option<usize>)
        ensures
            match res {
                Some(i) => i < rows.len() && row_from(views(rows@), item, hash, 0) == Some(i as int),
                None => row_from(views(rows@), item, hash, 0) is None,
            },
    {
        let mut i: usize = 0;
        while i < rows.len()
            invariant
                i <= rows.len(),
                row_from(views(rows@), item, hash, 0) == row_from(views(rows@), item, hash, i as int),
            decreases rows.len() - i,
        {
            assert(views(rows@)[i as int] == rows@[i as int]@);
            if rows[i].item == item && rows[i].hash == hash {
                return Some(i);
            }
            i = i + 1;
        }
        None
    }

    #[verifier::loop_isolation(false)]
    fn evict_overflow(rows: &mut Vec<CacheRow>)
        ensures
            views(final(rows)@) == newest(views(old(rows)@)),
    {
        let ghost all = views(rows@);
        assert(all.skip(0) =~= all);
        while rows.len() > CACHE_LIMIT
            invariant
                rows.len() <= all.len(),
                views(rows@) == all.skip(all.len() - rows.len()),
                all.len() > CACHE_LIMIT ==> rows.len() >= CACHE_LIMIT,
                all.len() <= CACHE_LIMIT ==> rows.len() == all.len(),
            decreases rows.len(),
        {
            let ghost before = views(rows@);
            rows.remove(0);
            assert(views(rows@) =~= before.skip(1));
            assert(views(rows@) =~= all.skip(all.len() - rows.len()));
        }
    }

    pub fn insert(&mut self, item: i32, hash: i32, backup: ItemBackup)
        ensures
            final(self)@ == recorded(old(self)@, item, hash, backup@),
            well_formed(final(self)@),
    {
        proof {
            use_type_invariant(&*self);
            recording_keeps_the_cache_bounded(self@, item, hash, backup@);
        }
        let ghost before = self@;
        let mut rows: Vec<CacheRow> = Vec::new();
        assert(views(rows@) =~= Seq::<Row>::empty());
        std::mem::swap(&mut rows, &mut self.rows);
        let mut row: CacheRow = CacheRow { item, hash, backup: None };
        match Self::find(&rows, item, hash) {
            Some(i) => {
                assert(before[i as int] == rows@[i as int]@);
                let existing: CacheRow = rows.remove(i);
                assert(views(rows@) =~= before.remove(i as int));
                if let Some(kept) = &existing.backup {
                    if kept.same(&backup) {
                        row = CacheRow { item, hash, backup: Some(backup) };
                    }
                }
            },
            None => {
                row = CacheRow { item, hash, backup: Some(backup) };
            },
        }
        let ghost left = views(rows@);
        let ghost view = row@;
        rows.push(row);
        assert(views(rows@) =~= left.push(view));
        Self::evict_overflow(&mut rows);
        self.rows = rows;
    }

    pub fn get(&self, item: i32, hash: i32) -> (res: Option<&ItemBackup>)
        ensures
            match res {
                Some(backup) => cached(self@, item, hash) == Some(backup@),
                None => cached(self@, item, hash) is None,
            },
            well_formed(self@),
    {
        proof {
            use_type_invariant(self);
        }
        match Self::find(&self.rows, item, hash) {
            Some(i) => {
                assert(self@[i as int] == self.rows@[i as int]@);
                match &self.rows[i].backup {
                    Some(backup) => Some(backup),
                    None => None,
                }
            },
            None => None,
        }
    }
}

// --- what a stack loses --------------------------------------------------------------------------------

/// The hash of a component's value, by its id and payload. Components that cannot
/// be hashed are left out.
pub struct ComponentHash {
    pub id: i32,
    pub data: Vec<u8>,
    pub hash: i32,
}

pub open spec fn hash_from(rows: Seq<ComponentHash>, id: i32, data: Seq<u8>, i: int) -> Option<i32>
    decreases rows.len() - i,
{
    if i < 0 || i >= rows.len() {
        None
    } else if rows[i].id == id && rows[i].data@ == data {
        Some(rows[i].hash)
    } else {
        hash_from(rows, id, data, i + 1)
    }
}

#[verifier::loop_isolation(false)]
fn component_hash(component: &ItemComponent, hashes: &Vec<ComponentHash>) -> (res: Option<i32>)
    ensures
        res == hash_from(hashes@, component.id, component.data@, 0),
{
    let mut i: usize = 0;
    while i < hashes.len()
        invariant
            i <= hashes.len(),
            hash_from(hashes@, component.id, component.data@, 0) == hash_from(
                hashes@,
                component.id,
                component.data@,
                i as int,
            ),
        decreases hashes.len() - i,
    {
        if hashes[i].id == component.id && wire::same_bytes(
            hashes[i].data.as_slice(),
            component.data.as_slice(),
        ) {
            return Some(hashes[i].hash);
        }
        i = i + 1;
    }
    None
}

/// A stack as the server has it and as a client will see it.
pub struct Sides<'a> {
    pub source_added: &'a Vec<ItemComponent>,
    pub source_removed: &'a Vec<i32>,
    pub client_added: &'a Vec<ItemComponent>,
    pub client_removed: &'a Vec<i32>,
    /// The client's form is NBT: its components stand under the server's ids.
    pub legacy: bool,
}

#[verifier::ext_equal]
pub struct SideViews {
    pub source_added: Seq<Component>,
    pub source_removed: Seq<i32>,
    pub client_added: Seq<Component>,
    pub client_removed: Seq<i32>,
    pub legacy: bool,
}

impl<'a> View for Sides<'a> {
    type V = SideViews;

    open spec fn view(&self) -> SideViews {
        SideViews {
            source_added: types::component_views(self.source_added@),
            source_removed: self.source_removed@,
            client_added: types::component_views(self.client_added@),
            client_removed: self.client_removed@,
            legacy: self.legacy,
        }
    }
}

/// The client's id of an added component.
pub open spec fn client_id(id: i32, legacy: bool, to: &Target) -> Option<i32> {
    if legacy {
        Some(id)
    } else {
        match catalog::component_of(to.cat, id) {
            Some(component) => item::component_id_mapped(id, component, to),
            None => None,
        }
    }
}

/// The client's id of a removed component; NBT cannot say that one is removed.
pub open spec fn client_removed_id(id: i32, legacy: bool, to: &Target) -> Option<i32> {
    if legacy {
        None
    } else {
        client_id(id, false, to)
    }
}

fn to_client_id(id: i32, legacy: bool, to: &Target) -> (res: Option<i32>)
    ensures
        res == client_id(id, legacy, to),
{
    if legacy {
        Some(id)
    } else {
        match to.cat.component(id) {
            Some(component) => item::map_component_id(id, component, to),
            None => None,
        }
    }
}

fn to_client_removed_id(id: i32, legacy: bool, to: &Target) -> (res: Option<i32>)
    ensures
        res == client_removed_id(id, legacy, to),
{
    if legacy {
        None
    } else {
        to_client_id(id, false, to)
    }
}

/// How many of the added components from `i` on a client has under one id.
pub open spec fn added_under(added: Seq<Component>, mapped: i32, legacy: bool, to: &Target, i: int) -> nat
    decreases added.len() - i,
{
    if i < 0 || i >= added.len() {
        0
    } else {
        added_under(added, mapped, legacy, to, i + 1) + (if client_id(added[i].id, legacy, to) == Some(mapped) {
            1nat
        } else {
            0nat
        })
    }
}

pub open spec fn removed_under(removed: Seq<i32>, mapped: i32, legacy: bool, to: &Target, i: int) -> nat
    decreases removed.len() - i,
{
    if i < 0 || i >= removed.len() {
        0
    } else {
        removed_under(removed, mapped, legacy, to, i + 1) + (if client_removed_id(removed[i], legacy, to) == Some(
            mapped,
        ) {
            1nat
        } else {
            0nat
        })
    }
}

/// The components that are always kept back.
pub open spec fn always_kept(component: DataComponent) -> bool {
    component is AttackAnimation || component is InteractAnimation || component is SignTextFront || component
        is SignTextBack
}

fn via_backup_component(component: DataComponent) -> (res: bool)
    ensures
        res == always_kept(component),
{
    match component {
        DataComponent::AttackAnimation
        | DataComponent::InteractAnimation
        | DataComponent::SignTextFront
        | DataComponent::SignTextBack => true,
        _ => false,
    }
}

pub open spec fn is_always_kept(id: i32, cat: &Catalog) -> bool {
    match catalog::component_of(cat, id) {
        Some(component) => always_kept(component),
        None => false,
    }
}

/// Whether one of the components that a client has under one id is always kept.
pub open spec fn kept_under(added: Seq<Component>, mapped: i32, legacy: bool, to: &Target, i: int) -> bool
    decreases added.len() - i,
{
    if i < 0 || i >= added.len() {
        false
    } else {
        (client_id(added[i].id, legacy, to) == Some(mapped) && is_always_kept(added[i].id, to.cat)) || kept_under(
            added,
            mapped,
            legacy,
            to,
            i + 1,
        )
    }
}

/// Whether the client's form of an added component does not bring it back: the
/// client has it under an id that it shares with another, does not have it, or
/// has another payload.
pub open spec fn is_lost(sides: SideViews, c: Component, mapped: i32, to: &Target) -> bool {
    let count = added_under(sides.source_added, mapped, sides.legacy, to, 0);
    let shown = item_nbt::data_from(sides.client_added, mapped, 0);
    count > 1 || removed_under(sides.source_removed, mapped, sides.legacy, to, 0) > 0 || shown is None || (count
        == 1 && shown != Some(c.data)) || kept_under(sides.source_added, mapped, sides.legacy, to, 0)
}

pub open spec fn is_removal_lost(sides: SideViews, mapped: i32, to: &Target) -> bool {
    removed_under(sides.source_removed, mapped, sides.legacy, to, 0) > 1 || added_under(
        sides.source_added,
        mapped,
        sides.legacy,
        to,
        0,
    ) > 0 || !sides.client_removed.contains(mapped)
}

pub open spec fn component_place_from(s: Seq<Component>, id: i32, i: int) -> int
    decreases s.len() - i,
{
    if i < 0 || i >= s.len() || s[i].id > id {
        i
    } else {
        component_place_from(s, id, i + 1)
    }
}

/// A list of components in the order of their ids with one more.
pub open spec fn with_placed(s: Seq<Component>, c: Component) -> Seq<Component> {
    s.insert(component_place_from(s, c.id, 0), c)
}

/// The added components from `i` on that a client's form does not bring back, in
/// the order of their ids.
pub open spec fn lost_from(out: Seq<Component>, sides: SideViews, to: &Target, i: int) -> Seq<Component>
    decreases sides.source_added.len() - i,
{
    if i < 0 || i >= sides.source_added.len() {
        out
    } else {
        let c = sides.source_added[i];
        let lost = match client_id(c.id, sides.legacy, to) {
            Some(mapped) => is_lost(sides, c, mapped, to),
            None => true,
        };
        lost_from(
            if lost {
                with_placed(out, c)
            } else {
                out
            },
            sides,
            to,
            i + 1,
        )
    }
}

pub open spec fn lost_removals_from(out: Seq<i32>, sides: SideViews, to: &Target, i: int) -> Seq<i32>
    decreases sides.source_removed.len() - i,
{
    if i < 0 || i >= sides.source_removed.len() {
        out
    } else {
        let id = sides.source_removed[i];
        let lost = match client_removed_id(id, sides.legacy, to) {
            Some(mapped) => is_removal_lost(sides, mapped, to),
            None => true,
        };
        lost_removals_from(
            if lost {
                order::with_id(out, id)
            } else {
                out
            },
            sides,
            to,
            i + 1,
        )
    }
}

/// The server's id for a component that a client shows, put in its place.
pub open spec fn with_shown(out: Seq<i32>, mapped: i32, legacy: bool, to: &Target) -> Seq<i32> {
    if legacy {
        order::with_new_id(out, mapped)
    } else {
        match item::component_id_native(mapped, to) {
            Some(id) => order::with_new_id(out, id),
            None => out,
        }
    }
}

/// The components that a client shows in place of lost ones, by the server's ids:
/// what comes back for them is dropped.
pub open spec fn stand_ins_from(out: Seq<i32>, sides: SideViews, to: &Target, i: int) -> Seq<i32>
    decreases sides.source_added.len() - i,
{
    if i < 0 || i >= sides.source_added.len() {
        out
    } else {
        let c = sides.source_added[i];
        stand_ins_from(
            match client_id(c.id, sides.legacy, to) {
                Some(mapped) => if is_lost(sides, c, mapped, to) && item_nbt::data_from(
                    sides.client_added,
                    mapped,
                    0,
                ) is Some {
                    order::with_new_id(with_shown(out, mapped, sides.legacy, to), c.id)
                } else {
                    out
                },
                None => out,
            },
            sides,
            to,
            i + 1,
        )
    }
}

pub open spec fn removal_stand_ins_from(out: Seq<i32>, sides: SideViews, to: &Target, i: int) -> Seq<i32>
    decreases sides.source_removed.len() - i,
{
    if i < 0 || i >= sides.source_removed.len() {
        out
    } else {
        let id = sides.source_removed[i];
        removal_stand_ins_from(
            match client_removed_id(id, sides.legacy, to) {
                Some(mapped) => if is_removal_lost(sides, mapped, to) && sides.client_removed.contains(mapped) {
                    order::with_new_id(with_shown(out, mapped, false, to), id)
                } else {
                    out
                },
                None => out,
            },
            sides,
            to,
            i + 1,
        )
    }
}

/// Whether the client's form shows a model that the server's stack does not have,
/// to tell a stand-in item apart.
pub open spec fn shows_model(sides: SideViews, server_item_id: i32, to: &Target) -> bool {
    let id = catalog::id_of(to.cat, DataComponent::CustomModelData);
    &&& item_nbt::data_from(sides.source_added, id, 0) is None
    &&& mapping::model_of(to.ids.custom_model_data@, server_item_id) is Some
    &&& match (if sides.legacy {
        Some(id)
    } else {
        item::component_id_mapped(id, DataComponent::CustomModelData, to)
    }) {
        Some(mapped) => item_nbt::data_from(sides.client_added, mapped, 0) is Some,
        None => false,
    }
}

pub open spec fn hashes_from(
    out: Seq<(i32, i32)>,
    restored: Seq<Component>,
    hashes: Seq<ComponentHash>,
    i: int,
) -> Option<Seq<(i32, i32)>>
    decreases restored.len() - i,
{
    if i < 0 || i >= restored.len() {
        Some(out)
    } else {
        match hash_from(hashes, restored[i].id, restored[i].data, 0) {
            Some(hash) => hashes_from(out.push((restored[i].id, hash)), restored, hashes, i + 1),
            None => None,
        }
    }
}

/// The hashes of what is restored, which clients send from 1.21.5 on in place of
/// the components.
pub open spec fn restored_hashes(restored: Seq<Component>, hashes: Seq<ComponentHash>, to: &Target) -> Option<
    Seq<(i32, i32)>,
> {
    if to.version >= version::V_1_21_5 {
        hashes_from(seq![], restored, hashes, 0)
    } else {
        Some(seq![])
    }
}

pub open spec fn all_known(added: Seq<Component>, cat: &Catalog) -> bool {
    forall|i: int| 0 <= i < added.len() ==> catalog::component_of(cat, (#[trigger] added[i]).id) is Some
}

pub open spec fn all_ids_known(removed: Seq<i32>, cat: &Catalog) -> bool {
    forall|i: int| 0 <= i < removed.len() ==> catalog::component_of(cat, #[trigger] removed[i]) is Some
}

pub open spec fn backup_between(
    server_item_id: i32,
    sides: SideViews,
    hashes: Seq<ComponentHash>,
    to: &Target,
) -> Option<Backup> {
    let restore_added = lost_from(seq![], sides, to, 0);
    let stand_ins = stand_ins_from(seq![], sides, to, 0);
    if !all_known(sides.source_added, to.cat) || !all_ids_known(sides.source_removed, to.cat) {
        None
    } else {
        match restored_hashes(restore_added, hashes, to) {
            Some(restore_added_hashes) => Some(
                Backup {
                    server_item_id,
                    server_has_custom_data: item_nbt::data_of(
                        sides.source_added,
                        DataComponent::CustomData,
                        to.cat,
                    ) is Some,
                    restore_added,
                    restore_added_hashes,
                    restore_removed: lost_removals_from(seq![], sides, to, 0),
                    remove_server_added: if shows_model(sides, server_item_id, to) {
                        order::with_new_id(
                            stand_ins,
                            catalog::id_of(to.cat, DataComponent::CustomModelData),
                        )
                    } else {
                        stand_ins
                    },
                    remove_server_removed: removal_stand_ins_from(seq![], sides, to, 0),
                },
            ),
            None => None,
        }
    }
}

/// The components that a client's form of a stack brings back, and those it says
/// are removed; with whether that form is NBT.
pub open spec fn client_side(downgraded: Stack, to: &Target) -> Option<(Seq<Component>, Seq<i32>, bool)> {
    match downgraded {
        Stack::Empty => None,
        Stack::Structured { added, removed, .. } => Some((added, removed, false)),
        Stack::Nbt { nbt, .. } => match nbt {
            None => Some((seq![], seq![], true)),
            Some(tag) => match nbt::compound_of(tag) {
                Some(c) => Some(
                    (item_nbt::native_components(c, to.version, to.texts, to.cat), seq![], true),
                ),
                None => None,
            },
        },
    }
}

/// What has to be kept so that a stack can be put together again from a client's
/// form of it.
pub open spec fn backup_of(original: Stack, downgraded: Stack, hashes: Seq<ComponentHash>, to: &Target) -> Option<
    Backup,
> {
    match original {
        Stack::Structured { id, added, removed, .. } => match client_side(downgraded, to) {
            Some((client_added, client_removed, legacy)) => backup_between(
                id,
                SideViews { source_added: added, source_removed: removed, client_added, client_removed, legacy },
                hashes,
                to,
            ),
            None => None,
        },
        _ => None,
    }
}

#[verifier::loop_isolation(false)]
fn data_with_id(added: &Vec<ItemComponent>, id: i32) -> (res: Option<&[u8]>)
    ensures
        catalog::same_text(res, item_nbt::data_from(types::component_views(added@), id, 0)),
{
    let ghost views = types::component_views(added@);
    let mut i: usize = 0;
    while i < added.len()
        invariant
            i <= added.len(),
            item_nbt::data_from(views, id, 0) == item_nbt::data_from(views, id, i as int),
        decreases added.len() - i,
    {
        assert(views[i as int] == added@[i as int]@);
        if added[i].id == id {
            return Some(added[i].data.as_slice());
        }
        i = i + 1;
    }
    None
}

#[verifier::loop_isolation(false)]
fn count_added(sides: &Sides, mapped: i32, to: &Target) -> (res: usize)
    ensures
        res == added_under(sides@.source_added, mapped, sides.legacy, to, 0),
{
    let ghost added = sides@.source_added;
    let mut count: usize = 0;
    let mut i: usize = sides.source_added.len();
    while i > 0
        invariant
            i <= sides.source_added.len(),
            count == added_under(added, mapped, sides.legacy, to, i as int),
            count <= sides.source_added.len() - i,
        decreases i,
    {
        i = i - 1;
        assert(added[i as int] == sides.source_added@[i as int]@);
        if let Some(found) = to_client_id(sides.source_added[i].id, sides.legacy, to) {
            if found == mapped {
                count = count + 1;
            }
        }
    }
    count
}

#[verifier::loop_isolation(false)]
fn count_removed(sides: &Sides, mapped: i32, to: &Target) -> (res: usize)
    ensures
        res == removed_under(sides@.source_removed, mapped, sides.legacy, to, 0),
{
    let ghost removed = sides@.source_removed;
    let mut count: usize = 0;
    let mut i: usize = sides.source_removed.len();
    while i > 0
        invariant
            i <= sides.source_removed.len(),
            count == removed_under(removed, mapped, sides.legacy, to, i as int),
            count <= sides.source_removed.len() - i,
        decreases i,
    {
        i = i - 1;
        if let Some(found) = to_client_removed_id(sides.source_removed[i], sides.legacy, to) {
            if found == mapped {
                count = count + 1;
            }
        }
    }
    count
}

#[verifier::loop_isolation(false)]
fn keeps_one(sides: &Sides, mapped: i32, to: &Target) -> (res: bool)
    ensures
        res == kept_under(sides@.source_added, mapped, sides.legacy, to, 0),
{
    let ghost added = sides@.source_added;
    let mut i: usize = 0;
    while i < sides.source_added.len()
        invariant
            i <= sides.source_added.len(),
            kept_under(added, mapped, sides.legacy, to, 0) == kept_under(
                added,
                mapped,
                sides.legacy,
                to,
                i as int,
            ),
        decreases sides.source_added.len() - i,
    {
        assert(added[i as int] == sides.source_added@[i as int]@);
        let id: i32 = sides.source_added[i].id;
        if let Some(found) = to_client_id(id, sides.legacy, to) {
            if found == mapped {
                if let Some(component) = to.cat.component(id) {
                    if via_backup_component(component) {
                        return true;
                    }
                }
            }
        }
        i = i + 1;
    }
    false
}

fn lost(sides: &Sides, c: &ItemComponent, mapped: i32, to: &Target) -> (res: bool)
    ensures
        res == is_lost(sides@, c@, mapped, to),
{
    let count: usize = count_added(sides, mapped, to);
    if count > 1 || count_removed(sides, mapped, to) > 0 || keeps_one(sides, mapped, to) {
        return true;
    }
    match data_with_id(sides.client_added, mapped) {
        Some(data) => count == 1 && !wire::same_bytes(data, c.data.as_slice()),
        None => true,
    }
}

fn removal_lost(sides: &Sides, mapped: i32, to: &Target) -> (res: bool)
    ensures
        res == is_removal_lost(sides@, mapped, to),
{
    count_removed(sides, mapped, to) > 1 || count_added(sides, mapped, to) > 0 || !order::holds_id(
        sides.client_removed,
        mapped,
    )
}

#[verifier::loop_isolation(false)]
fn place_component(out: &mut Vec<ItemComponent>, c: ItemComponent)
    ensures
        types::component_views(final(out)@) == with_placed(types::component_views(old(out)@), c@),
{
    let ghost views = types::component_views(out@);
    let mut i: usize = 0;
    while i < out.len() && out[i].id <= c.id
        invariant
            i <= out.len(),
            out@ == old(out)@,
            component_place_from(views, c.id, 0) == component_place_from(views, c.id, i as int),
        decreases out.len() - i,
    {
        assert(views[i as int] == out@[i as int]@);
        i = i + 1;
    }
    proof {
        if i < out.len() {
            assert(views[i as int] == out@[i as int]@);
        }
    }
    let ghost view = c@;
    out.insert(i, c);
    assert(types::component_views(out@) =~= views.insert(i as int, view));
}

#[verifier::loop_isolation(false)]
fn lost_components(sides: &Sides, to: &Target) -> (res: Vec<ItemComponent>)
    ensures
        types::component_views(res@) == lost_from(seq![], sides@, to, 0),
{
    let ghost views = sides@;
    let mut out: Vec<ItemComponent> = Vec::new();
    assert(types::component_views(out@) =~= seq![]);
    let mut i: usize = 0;
    while i < sides.source_added.len()
        invariant
            i <= sides.source_added.len(),
            lost_from(seq![], views, to, 0) == lost_from(types::component_views(out@), views, to, i as int),
        decreases sides.source_added.len() - i,
    {
        assert(views.source_added[i as int] == sides.source_added@[i as int]@);
        let gone: bool = match to_client_id(sides.source_added[i].id, sides.legacy, to) {
            Some(mapped) => lost(sides, &sides.source_added[i], mapped, to),
            None => true,
        };
        if gone {
            place_component(&mut out, sides.source_added[i].copy());
        }
        i = i + 1;
    }
    out
}

#[verifier::loop_isolation(false)]
fn lost_removals(sides: &Sides, to: &Target) -> (res: Vec<i32>)
    ensures
        res@ == lost_removals_from(seq![], sides@, to, 0),
{
    let ghost views = sides@;
    let mut out: Vec<i32> = Vec::new();
    let mut i: usize = 0;
    while i < sides.source_removed.len()
        invariant
            i <= sides.source_removed.len(),
            lost_removals_from(seq![], views, to, 0) == lost_removals_from(out@, views, to, i as int),
        decreases sides.source_removed.len() - i,
    {
        let id: i32 = sides.source_removed[i];
        let gone: bool = match to_client_removed_id(id, sides.legacy, to) {
            Some(mapped) => removal_lost(sides, mapped, to),
            None => true,
        };
        if gone {
            order::add_id(&mut out, id);
        }
        i = i + 1;
    }
    out
}

fn add_shown(out: &mut Vec<i32>, mapped: i32, legacy: bool, to: &Target)
    ensures
        final(out)@ == with_shown(old(out)@, mapped, legacy, to),
{
    if legacy {
        order::add_new_id(out, mapped);
    } else if let Some(id) = item::map_component_id_from_client(mapped, to) {
        order::add_new_id(out, id);
    }
}

#[verifier::loop_isolation(false)]
fn stand_ins(sides: &Sides, to: &Target) -> (res: Vec<i32>)
    ensures
        res@ == stand_ins_from(seq![], sides@, to, 0),
{
    let ghost views = sides@;
    let mut out: Vec<i32> = Vec::new();
    let mut i: usize = 0;
    while i < sides.source_added.len()
        invariant
            i <= sides.source_added.len(),
            stand_ins_from(seq![], views, to, 0) == stand_ins_from(out@, views, to, i as int),
        decreases sides.source_added.len() - i,
    {
        assert(views.source_added[i as int] == sides.source_added@[i as int]@);
        let id: i32 = sides.source_added[i].id;
        if let Some(mapped) = to_client_id(id, sides.legacy, to) {
            if lost(sides, &sides.source_added[i], mapped, to) && data_with_id(
                sides.client_added,
                mapped,
            ).is_some() {
                add_shown(&mut out, mapped, sides.legacy, to);
                order::add_new_id(&mut out, id);
            }
        }
        i = i + 1;
    }
    out
}

#[verifier::loop_isolation(false)]
fn removal_stand_ins(sides: &Sides, to: &Target) -> (res: Vec<i32>)
    ensures
        res@ == removal_stand_ins_from(seq![], sides@, to, 0),
{
    let ghost views = sides@;
    let mut out: Vec<i32> = Vec::new();
    let mut i: usize = 0;
    while i < sides.source_removed.len()
        invariant
            i <= sides.source_removed.len(),
            removal_stand_ins_from(seq![], views, to, 0) == removal_stand_ins_from(out@, views, to, i as int),
        decreases sides.source_removed.len() - i,
    {
        let id: i32 = sides.source_removed[i];
        if let Some(mapped) = to_client_removed_id(id, sides.legacy, to) {
            if removal_lost(sides, mapped, to) && order::holds_id(sides.client_removed, mapped) {
                add_shown(&mut out, mapped, false, to);
                order::add_new_id(&mut out, id);
            }
        }
        i = i + 1;
    }
    out
}

fn has_stand_in_model(sides: &Sides, server_item_id: i32, to: &Target) -> (res: bool)
    ensures
        res == shows_model(sides@, server_item_id, to),
{
    let id: i32 = to.cat.component_id(DataComponent::CustomModelData);
    if data_with_id(sides.source_added, id).is_some() || to.ids.fallback_model(server_item_id).is_none() {
        return false;
    }
    let shown: Option<i32> = if sides.legacy {
        Some(id)
    } else {
        item::map_component_id(id, DataComponent::CustomModelData, to)
    };
    match shown {
        Some(mapped) => data_with_id(sides.client_added, mapped).is_some(),
        None => false,
    }
}

#[verifier::loop_isolation(false)]
fn hash_restored(restored: &Vec<ItemComponent>, hashes: &Vec<ComponentHash>, to: &Target) -> (res: Option<
    Vec<(i32, i32)>,
>)
    ensures
        match restored_hashes(types::component_views(restored@), hashes@, to) {
            Some(pairs) => res is Some && res.unwrap()@ == pairs,
            None => res is None,
        },
{
    let ghost views = types::component_views(restored@);
    let mut out: Vec<(i32, i32)> = Vec::new();
    if to.version < version::V_1_21_5 {
        return Some(out);
    }
    let mut i: usize = 0;
    while i < restored.len()
        invariant
            i <= restored.len(),
            hashes_from(seq![], views, hashes@, 0) == hashes_from(out@, views, hashes@, i as int),
        decreases restored.len() - i,
    {
        assert(views[i as int] == restored@[i as int]@);
        match component_hash(&restored[i], hashes) {
            Some(hash) => out.push((restored[i].id, hash)),
            None => {
                return None;
            },
        }
        i = i + 1;
    }
    Some(out)
}

#[verifier::loop_isolation(false)]
fn knows_all(added: &Vec<ItemComponent>, cat: &Catalog) -> (res: bool)
    ensures
        res == all_known(types::component_views(added@), cat),
{
    let ghost views = types::component_views(added@);
    let mut i: usize = 0;
    while i < added.len()
        invariant
            i <= added.len(),
            forall|j: int| 0 <= j < i ==> catalog::component_of(cat, (#[trigger] views[j]).id) is Some,
        decreases added.len() - i,
    {
        assert(views[i as int] == added@[i as int]@);
        if cat.component(added[i].id).is_none() {
            return false;
        }
        i = i + 1;
    }
    true
}

fn knows_all_ids(removed: &Vec<i32>, cat: &Catalog) -> (res: bool)
    ensures
        res == all_ids_known(removed@, cat),
{
    let mut i: usize = 0;
    while i < removed.len()
        invariant
            i <= removed.len(),
            forall|j: int| 0 <= j < i ==> catalog::component_of(cat, #[trigger] removed@[j]) is Some,
        decreases removed.len() - i,
    {
        if cat.component(removed[i]).is_none() {
            assert(catalog::component_of(cat, removed@[i as int]) is None);
            return false;
        }
        i = i + 1;
    }
    true
}

fn back_up_between(server_item_id: i32, sides: &Sides, hashes: &Vec<ComponentHash>, to: &Target) -> (res: Option<
    ItemBackup,
>)
    ensures
        match backup_between(server_item_id, sides@, hashes@, to) {
            Some(backup) => res is Some && res.unwrap()@ == backup,
            None => res is None,
        },
{
    if !knows_all(sides.source_added, to.cat) || !knows_all_ids(sides.source_removed, to.cat) {
        return None;
    }
    let restore_added: Vec<ItemComponent> = lost_components(sides, to);
    let restore_added_hashes: Vec<(i32, i32)> = match hash_restored(&restore_added, hashes, to) {
        Some(pairs) => pairs,
        None => {
            return None;
        },
    };
    let restore_removed: Vec<i32> = lost_removals(sides, to);
    let mut remove_server_added: Vec<i32> = stand_ins(sides, to);
    if has_stand_in_model(sides, server_item_id, to) {
        order::add_new_id(&mut remove_server_added, to.cat.component_id(DataComponent::CustomModelData));
    }
    let remove_server_removed: Vec<i32> = removal_stand_ins(sides, to);
    let server_has_custom_data: bool = item_nbt::find(
        sides.source_added,
        DataComponent::CustomData,
        to.cat,
    ).is_some();
    Some(
        ItemBackup {
            server_item_id,
            server_has_custom_data,
            restore_added,
            restore_added_hashes,
            restore_removed,
            remove_server_added,
            remove_server_removed,
        },
    )
}

pub fn build_backup(original: &Item, downgraded: &Item, hashes: &Vec<ComponentHash>, to: &Target) -> (res: Option<
    ItemBackup,
>)
    ensures
        match backup_of(original@, downgraded@, hashes@, to) {
            Some(backup) => res is Some && res.unwrap()@ == backup,
            None => res is None,
        },
{
    match original {
        Item::Structured { count: _, id, added: source_added, removed: source_removed } => {
            let none: Vec<i32> = Vec::new();
            match downgraded {
                Item::Empty => None,
                Item::Structured { count: _, id: _, added: client_added, removed: client_removed } => {
                    let sides: Sides = Sides {
                        source_added,
                        source_removed,
                        client_added,
                        client_removed,
                        legacy: false,
                    };
                    back_up_between(*id, &sides, hashes, to)
                },
                Item::Nbt { id: _, count: _, nbt } => {
                    let mut shown: Vec<ItemComponent> = Vec::new();
                    assert(types::component_views(shown@) =~= seq![]);
                    if let Some(tag) = nbt {
                        match tag.extract_compound() {
                            Some(c) => {
                                shown = item_nbt::nbt_to_components(&c, to.version, to.texts, to.cat);
                            },
                            None => {
                                return None;
                            },
                        }
                    }
                    let sides: Sides = Sides {
                        source_added,
                        source_removed,
                        client_added: &shown,
                        client_removed: &none,
                        legacy: true,
                    };
                    assert(sides@.client_removed =~= seq![]);
                    back_up_between(*id, &sides, hashes, to)
                },
            }
        },
        _ => None,
    }
}

// --- markers -------------------------------------------------------------------------------------------

/// The name under which a client's form of a stack carries its marker.
pub open spec fn backup_key() -> Seq<u8> {
    wire::key("PJM|26_3_backup")
}

/// A component as a marker spells it.
pub open spec fn marker_entry(c: Component) -> Seq<Entry> {
    nbt::put(
        nbt::put(seq![], wire::key("id"), nbt::int_tag(c.id)),
        wire::key("data"),
        nbt::byte_array_tag(c.data),
    )
}

pub open spec fn marker_entries(added: Seq<Component>) -> Seq<Tag> {
    Seq::new(added.len(), |i: int| nbt::compound_tag(marker_entry(added[i])))
}

/// The marker of a backup.
pub open spec fn marker_of(added: Seq<Component>, removed: Seq<i32>) -> Seq<Entry> {
    nbt::put(
        nbt::put(seq![], wire::key("added"), nbt::list_tag(marker_entries(added))),
        wire::key("removed"),
        nbt::int_array_tag(removed),
    )
}

/// Whether a compound has exactly the two entries that a marker spells a component
/// with, in whatever order.
pub open spec fn spells(c: Seq<Entry>, component: Component) -> bool {
    c.len() == 2 && nbt::get(c, wire::key("id")) == Some(nbt::int_tag(component.id)) && nbt::get(
        c,
        wire::key("data"),
    ) == Some(nbt::byte_array_tag(component.data))
}

pub open spec fn spells_in(tag: Tag, component: Component) -> bool {
    match nbt::compound_of(tag) {
        Some(c) => spells(c, component),
        None => false,
    }
}

pub open spec fn spells_all(tags: Seq<Tag>, added: Seq<Component>) -> bool {
    tags.len() == added.len() && forall|i: int|
        0 <= i < tags.len() ==> #[trigger] spells_in(tags[i], added[i])
}

/// Whether a compound is the marker of a backup, with its entries in whatever
/// order.
pub open spec fn is_marker(c: Seq<Entry>, added: Seq<Component>, removed: Seq<i32>) -> bool {
    c.len() == 2 && nbt::get(c, wire::key("removed")) == Some(nbt::int_array_tag(removed)) && match nbt::list_in(
        c,
        wire::key("added"),
    ) {
        Some(tags) => spells_all(tags, added),
        None => false,
    }
}

/// The compound of a payload of custom data, with nothing behind it.
pub open spec fn custom_data_of(data: Seq<u8>) -> Option<Seq<Entry>> {
    match nbt::take_nbt(data, false) {
        Some((Some(tag), rest)) => if rest.len() == 0 {
            nbt::compound_of(tag)
        } else {
            None
        },
        _ => None,
    }
}

pub open spec fn enc_custom_data(c: Seq<Entry>) -> Seq<u8> {
    nbt::enc_nbt(Some(nbt::compound_tag(c)), false)
}

/// Custom data with a marker.
pub open spec fn with_marker(c: Seq<Entry>, marker: Seq<Entry>) -> Seq<Entry> {
    nbt::put(c, backup_key(), nbt::compound_tag(marker))
}

/// The place of the first component with an id.
pub open spec fn place_of(added: Seq<Component>, id: i32, i: int) -> Option<int>
    decreases added.len() - i,
{
    if i < 0 || i >= added.len() {
        None
    } else if added[i].id == id {
        Some(i)
    } else {
        place_of(added, id, i + 1)
    }
}

/// The key of a cache entry, where the custom data can be hashed.
pub open spec fn cache_key(item: i32, c: Seq<Entry>) -> Option<(i32, i32)> {
    match hash::compound_hash(c) {
        Some(hash) => Some((item, hash)),
        None => None,
    }
}

/// A client's stack with a marker in its custom data, and the key that it then
/// has; the stack as it was where it cannot carry the marker.
pub open spec fn marked(stack: Stack, marker: Seq<Entry>, to: &Target) -> (Stack, Option<(i32, i32)>) {
    match stack {
        Stack::Empty => (stack, None),
        Stack::Structured { count, id, added, removed } => match item::own_component_mapped(
            DataComponent::CustomData,
            to,
        ) {
            None => (stack, None),
            Some(custom_id) => match place_of(added, custom_id, 0) {
                Some(i) => match custom_data_of(added[i].data) {
                    None => (stack, None),
                    Some(c) => if nbt::holds(c, backup_key()) {
                        (stack, None)
                    } else {
                        let c = with_marker(c, marker);
                        let added = added.update(i, Component { id: custom_id, data: enc_custom_data(c) });
                        (Stack::Structured { count, id, added, removed }, cache_key(id, c))
                    },
                },
                None => {
                    let c = with_marker(seq![], marker);
                    let added = added.push(Component { id: custom_id, data: enc_custom_data(c) });
                    (Stack::Structured { count, id, added, removed }, cache_key(id, c))
                },
            },
        },
        Stack::Nbt { id, count, nbt } => match (match nbt {
            None => Some(Seq::<Entry>::empty()),
            Some(tag) => nbt::compound_of(tag),
        }) {
            None => (stack, None),
            Some(c) => if nbt::holds(c, backup_key()) {
                (stack, None)
            } else {
                let c = with_marker(c, marker);
                let shown = item_nbt::native_components(c, to.version, to.texts, to.cat);
                let key = match item_nbt::data_of(shown, DataComponent::CustomData, to.cat) {
                    Some(data) => match custom_data_of(data) {
                        Some(custom) => cache_key(id, custom),
                        None => None,
                    },
                    None => None,
                };
                (Stack::Nbt { id, count, nbt: Some(nbt::compound_tag(c)) }, key)
            },
        },
    }
}

fn marker_entry_tag(c: &ItemComponent) -> (res: NbtTag)
    ensures
        res@ == nbt::compound_tag(marker_entry(c@)),
{
    let mut value: NbtCompound = NbtCompound::new();
    value.put_int("id".as_bytes(), c.id);
    value.put("data".as_bytes(), nbt::new_byte_array_tag(c.data.as_slice()));
    value.to_tag()
}

#[verifier::loop_isolation(false)]
fn marker_tag(added: &Vec<ItemComponent>, removed: &Vec<i32>) -> (res: NbtCompound)
    ensures
        res@ == marker_of(types::component_views(added@), removed@),
{
    let ghost views = types::component_views(added@);
    let mut entries: Vec<NbtTag> = Vec::new();
    let mut i: usize = 0;
    while i < added.len()
        invariant
            i <= added.len(),
            entries.len() == i,
            forall|j: int| 0 <= j < i ==> (#[trigger] entries@[j])@ == nbt::compound_tag(marker_entry(views[j])),
        decreases added.len() - i,
    {
        assert(views[i as int] == added@[i as int]@);
        entries.push(marker_entry_tag(&added[i]));
        i = i + 1;
    }
    assert(nbt::tag_views(entries@) =~= marker_entries(views));
    let mut marker: NbtCompound = NbtCompound::new();
    marker.put_list("added".as_bytes(), &entries);
    marker.put("removed".as_bytes(), nbt::new_int_array_tag(removed));
    marker
}

fn same_tag(a: Option<&NbtTag>, b: &NbtTag) -> (res: bool)
    ensures
        res == match a {
            Some(tag) => tag@ == b@,
            None => false,
        },
{
    match a {
        Some(tag) => tag.kind == b.kind && wire::same_bytes(tag.payload.as_slice(), b.payload.as_slice()),
        None => false,
    }
}

fn spells_component(tag: &NbtTag, component: &ItemComponent) -> (res: bool)
    ensures
        res == spells_in(tag@, component@),
{
    match tag.extract_compound() {
        Some(c) => c.entries.len() == 2 && same_tag(
            c.get("id".as_bytes()),
            &nbt::new_int_tag(component.id),
        ) && same_tag(c.get("data".as_bytes()), &nbt::new_byte_array_tag(component.data.as_slice())),
        None => false,
    }
}

#[verifier::loop_isolation(false)]
fn matches_marker(c: &NbtCompound, added: &Vec<ItemComponent>, removed: &Vec<i32>) -> (res: bool)
    ensures
        res == is_marker(c@, types::component_views(added@), removed@),
{
    let ghost views = types::component_views(added@);
    if c.entries.len() != 2 || !same_tag(c.get("removed".as_bytes()), &nbt::new_int_array_tag(removed)) {
        return false;
    }
    let tags: Vec<NbtTag> = match c.get_list("added".as_bytes()) {
        Some(tags) => tags,
        None => {
            return false;
        },
    };
    if tags.len() != added.len() {
        return false;
    }
    let ghost tag_views = nbt::tag_views(tags@);
    let mut i: usize = 0;
    while i < tags.len()
        invariant
            i <= tags.len(),
            forall|j: int| 0 <= j < i ==> #[trigger] spells_in(tag_views[j], views[j]),
        decreases tags.len() - i,
    {
        assert(tag_views[i as int] == tags@[i as int]@);
        assert(views[i as int] == added@[i as int]@);
        if !spells_component(&tags[i], &added[i]) {
            assert(!spells_in(tag_views[i as int], views[i as int]));
            return false;
        }
        i = i + 1;
    }
    true
}

pub fn read_custom_data(data: &[u8]) -> (res: Option<NbtCompound>)
    ensures
        nbt::view_opt(res) == custom_data_of(data@),
{
    let mut r: &[u8] = data;
    match nbt::get_nbt(&mut r, false) {
        Ok(Some(tag)) => {
            if r.len() == 0 {
                tag.extract_compound()
            } else {
                None
            }
        },
        _ => None,
    }
}

pub fn write_custom_data(c: &NbtCompound) -> (res: Vec<u8>)
    ensures
        res@ == enc_custom_data(c@),
{
    let mut out: Vec<u8> = Vec::new();
    nbt::write_nbt(&mut out, &c.to_tag(), false);
    assert(out@ =~= enc_custom_data(c@));
    out
}

#[verifier::loop_isolation(false)]
fn find_place(added: &Vec<ItemComponent>, id: i32) -> (res: Option<usize>)
    ensures
        match res {
            Some(i) => i < added.len() && place_of(types::component_views(added@), id, 0) == Some(i as int)
                && added@[i as int].id == id,
            None => place_of(types::component_views(added@), id, 0) is None,
        },
{
    let ghost views = types::component_views(added@);
    let mut i: usize = 0;
    while i < added.len()
        invariant
            i <= added.len(),
            place_of(views, id, 0) == place_of(views, id, i as int),
        decreases added.len() - i,
    {
        assert(views[i as int] == added@[i as int]@);
        if added[i].id == id {
            return Some(i);
        }
        i = i + 1;
    }
    None
}

fn key_for(item: i32, c: &NbtCompound) -> (res: Option<(i32, i32)>)
    ensures
        res == cache_key(item, c@),
{
    match hash::hash_compound(c) {
        Some(hash) => Some((item, hash)),
        None => None,
    }
}

fn put_marker(c: &mut NbtCompound, marker: &NbtCompound)
    ensures
        final(c)@ == with_marker(old(c)@, marker@),
{
    c.put("PJM|26_3_backup".as_bytes(), marker.to_tag());
}

/// Puts a marker into the custom data of the components of a client's stack.
fn mark_components(added: &mut Vec<ItemComponent>, item: i32, marker: &NbtCompound, to: &Target) -> (res: Option<
    (i32, i32),
>)
    ensures
        forall|count: i32, removed: Seq<i32>|
            #[trigger] marked(
                Stack::Structured {
                    count,
                    id: item,
                    added: types::component_views(old(added)@),
                    removed,
                },
                marker@,
                to,
            ) == (
                Stack::Structured { count, id: item, added: types::component_views(final(added)@), removed },
                res,
            ),
{
    let ghost views = types::component_views(added@);
    let custom_id: i32 = match item::map_component_id(
        to.cat.component_id(DataComponent::CustomData),
        DataComponent::CustomData,
        to,
    ) {
        Some(id) => id,
        None => {
            return None;
        },
    };
    match find_place(added, custom_id) {
        Some(i) => {
            assert(views[i as int] == added@[i as int]@);
            match read_custom_data(added[i].data.as_slice()) {
                Some(mut c) => {
                    if c.get("PJM|26_3_backup".as_bytes()).is_some() {
                        return None;
                    }
                    put_marker(&mut c, marker);
                    let data: Vec<u8> = write_custom_data(&c);
                    let component: ItemComponent = ItemComponent { id: custom_id, data };
                    let ghost view = component@;
                    added.set(i, component);
                    assert(types::component_views(added@) =~= views.update(i as int, view));
                    key_for(item, &c)
                },
                None => None,
            }
        },
        None => {
            let mut c: NbtCompound = NbtCompound::new();
            put_marker(&mut c, marker);
            let component: ItemComponent = ItemComponent { id: custom_id, data: write_custom_data(&c) };
            let ghost view = component@;
            added.push(component);
            assert(types::component_views(added@) =~= views.push(view));
            key_for(item, &c)
        },
    }
}

/// Puts a marker into a client's stack. Gives the stack, and the key that it then
/// has where it carries the marker.
pub fn add_marker(item: Item, marker: &NbtCompound, to: &Target) -> (res: (Item, Option<(i32, i32)>))
    ensures
        (res.0@, res.1) == marked(item@, marker@, to),
{
    match item {
        Item::Empty => (Item::Empty, None),
        Item::Structured { count, id, added, removed } => {
            let mut added: Vec<ItemComponent> = added;
            let key: Option<(i32, i32)> = mark_components(&mut added, id, marker, to);
            (Item::Structured { count, id, added, removed }, key)
        },
        Item::Nbt { id, count, nbt } => {
            let compound: Option<NbtCompound> = match &nbt {
                Some(tag) => tag.extract_compound(),
                None => Some(NbtCompound::new()),
            };
            match compound {
                None => (Item::Nbt { id, count, nbt }, None),
                Some(mut c) => {
                    if c.get("PJM|26_3_backup".as_bytes()).is_some() {
                        return (Item::Nbt { id, count, nbt }, None);
                    }
                    put_marker(&mut c, marker);
                    let shown: Vec<ItemComponent> = item_nbt::nbt_to_components(
                        &c,
                        to.version,
                        to.texts,
                        to.cat,
                    );
                    let key: Option<(i32, i32)> = match item_nbt::find(
                        &shown,
                        DataComponent::CustomData,
                        to.cat,
                    ) {
                        Some(data) => match read_custom_data(data) {
                            Some(custom) => key_for(id, &custom),
                            None => None,
                        },
                        None => None,
                    };
                    (Item::Nbt { id, count, nbt: Some(c.to_tag()) }, key)
                },
            }
        },
    }
}

// --- to the client and back --------------------------------------------------------------------------

/// Whether a backup has nothing to put back and nothing to take out.
pub open spec fn is_nothing(b: Backup) -> bool {
    b.restore_added.len() == 0 && b.restore_removed.len() == 0 && b.remove_server_added.len() == 0
        && b.remove_server_removed.len() == 0
}

/// A client's stack and the cache, once what the stack lost has been kept.
pub open spec fn backed_up(
    rows: Seq<Row>,
    original: Stack,
    downgraded: Stack,
    hashes: Seq<ComponentHash>,
    to: &Target,
) -> (Seq<Row>, Stack) {
    if to.version >= version::V_26_3 {
        (rows, downgraded)
    } else {
        match backup_of(original, downgraded, hashes, to) {
            None => (rows, downgraded),
            Some(backup) => if is_nothing(backup) {
                (rows, downgraded)
            } else {
                match marked(downgraded, marker_of(backup.restore_added, backup.restore_removed), to) {
                    (stack, Some((item, hash))) => (recorded(rows, item, hash, backup), stack),
                    (stack, None) => (rows, stack),
                }
            },
        }
    }
}

/// What a connection holds besides its backups.
pub open spec fn same_but_backups(a: UserConnection, b: UserConnection) -> bool {
    a == (UserConnection { backups: a.backups, ..b })
}

/// Adds a marker to a client's stack that has lost something, and remembers what
/// has to be put back. A marker is accepted only where this connection has an
/// entry that matches it.
pub fn backup_clientbound_item(
    connection: &mut UserConnection,
    original: &Item,
    downgraded: Item,
    hashes: &Vec<ComponentHash>,
    to: &Target,
) -> (res: Item)
    ensures
        (final(connection).backups@, res@) == backed_up(
            old(connection).backups@,
            original@,
            downgraded@,
            hashes@,
            to,
        ),
        same_but_backups(*final(connection), *old(connection)),
{
    if to.version >= version::V_26_3 {
        return downgraded;
    }
    match build_backup(original, &downgraded, hashes, to) {
        None => downgraded,
        Some(backup) => {
            if backup.restore_added.len() == 0 && backup.restore_removed.len() == 0
                && backup.remove_server_added.len() == 0 && backup.remove_server_removed.len() == 0 {
                return downgraded;
            }
            let marker: NbtCompound = marker_tag(&backup.restore_added, &backup.restore_removed);
            let (item, key): (Item, Option<(i32, i32)>) = add_marker(downgraded, &marker, to);
            if let Some((client_item, hash)) = key {
                connection.backups.insert(client_item, hash, backup);
            }
            item
        },
    }
}

/// The components without those whose ids are listed.
pub open spec fn without_ids(out: Seq<Component>, added: Seq<Component>, ids: Seq<i32>, i: int) -> Seq<Component>
    decreases added.len() - i,
{
    if i < 0 || i >= added.len() {
        out
    } else {
        without_ids(
            if ids.contains(added[i].id) {
                out
            } else {
                out.push(added[i])
            },
            added,
            ids,
            i + 1,
        )
    }
}

pub open spec fn ids_without(out: Seq<i32>, removed: Seq<i32>, ids: Seq<i32>, i: int) -> Seq<i32>
    decreases removed.len() - i,
{
    if i < 0 || i >= removed.len() {
        out
    } else {
        ids_without(
            if ids.contains(removed[i]) {
                out
            } else {
                out.push(removed[i])
            },
            removed,
            ids,
            i + 1,
        )
    }
}

/// The components of a stack with its custom data replaced; without any where the
/// data is empty and the server's stack had none.
pub open spec fn unmarked(added: Seq<Component>, c: Seq<Entry>, keeps_custom_data: bool, custom_id: i32) -> Seq<
    Component,
> {
    if c.len() == 0 && !keeps_custom_data {
        without_ids(seq![], added, seq![custom_id], 0)
    } else {
        match place_of(added, custom_id, 0) {
            Some(i) => added.update(i, Component { id: custom_id, data: enc_custom_data(c) }),
            None => added,
        }
    }
}

/// The backup that a stack's marker stands for: the connection has one under the
/// client's item and the hash of the custom data, for the stack's item, with just
/// that marker.
pub open spec fn backup_for(rows: Seq<Row>, id: i32, added: Seq<Component>, from: &Target) -> Option<
    (Backup, Seq<Entry>),
> {
    match (mapping::mapped(from.ids.items@, id), item_nbt::data_of(added, DataComponent::CustomData, from.cat)) {
        (Some(client_item), Some(data)) => match custom_data_of(data) {
            Some(c) => match hash::compound_hash(c) {
                Some(hash) => match cached(rows, client_item, hash) {
                    Some(backup) => if backup.server_item_id == id && (match nbt::compound_in(c, backup_key()) {
                        Some(marker) => is_marker(marker, backup.restore_added, backup.restore_removed),
                        None => false,
                    }) {
                        Some((backup, c))
                    } else {
                        None
                    },
                    None => None,
                },
                None => None,
            },
            None => None,
        },
        _ => None,
    }
}

/// A stack that a client sent back, with its marker gone and what it stands for
/// put back.
pub open spec fn restored(rows: Seq<Row>, stack: Stack, from: &Target) -> Stack {
    match stack {
        Stack::Structured { count, id, added, removed } => if from.version >= version::V_26_3 {
            stack
        } else {
            match backup_for(rows, id, added, from) {
                Some((backup, c)) => {
                    let plain = unmarked(
                        added,
                        nbt::remove(c, backup_key()),
                        backup.server_has_custom_data,
                        catalog::id_of(from.cat, DataComponent::CustomData),
                    );
                    Stack::Structured {
                        count,
                        id,
                        added: without_ids(seq![], plain, backup.remove_server_added, 0) + backup.restore_added,
                        removed: ids_without(seq![], removed, backup.remove_server_removed, 0)
                            + backup.restore_removed,
                    }
                },
                None => stack,
            }
        },
        _ => stack,
    }
}

#[verifier::loop_isolation(false)]
fn drop_ids(added: &Vec<ItemComponent>, ids: &Vec<i32>) -> (res: Vec<ItemComponent>)
    ensures
        types::component_views(res@) == without_ids(seq![], types::component_views(added@), ids@, 0),
{
    let ghost views = types::component_views(added@);
    let mut out: Vec<ItemComponent> = Vec::new();
    assert(types::component_views(out@) =~= seq![]);
    let mut i: usize = 0;
    while i < added.len()
        invariant
            i <= added.len(),
            without_ids(seq![], views, ids@, 0) == without_ids(types::component_views(out@), views, ids@, i as int),
        decreases added.len() - i,
    {
        assert(views[i as int] == added@[i as int]@);
        if !order::holds_id(ids, added[i].id) {
            let ghost before = types::component_views(out@);
            out.push(added[i].copy());
            assert(types::component_views(out@) =~= before.push(views[i as int]));
        }
        i = i + 1;
    }
    out
}

#[verifier::loop_isolation(false)]
fn ids_left(removed: &Vec<i32>, ids: &Vec<i32>) -> (res: Vec<i32>)
    ensures
        res@ == ids_without(seq![], removed@, ids@, 0),
{
    let mut out: Vec<i32> = Vec::new();
    let mut i: usize = 0;
    while i < removed.len()
        invariant
            i <= removed.len(),
            ids_without(seq![], removed@, ids@, 0) == ids_without(out@, removed@, ids@, i as int),
        decreases removed.len() - i,
    {
        if !order::holds_id(ids, removed[i]) {
            out.push(removed[i]);
        }
        i = i + 1;
    }
    out
}

fn append_components(out: &mut Vec<ItemComponent>, more: &Vec<ItemComponent>)
    ensures
        types::component_views(final(out)@) == types::component_views(old(out)@) + types::component_views(more@),
{
    let ghost before = types::component_views(out@);
    let ghost views = types::component_views(more@);
    let mut i: usize = 0;
    assert(before + views.take(0) =~= before);
    while i < more.len()
        invariant
            i <= more.len(),
            views == types::component_views(more@),
            types::component_views(out@) == before + views.take(i as int),
        decreases more.len() - i,
    {
        let ghost here = types::component_views(out@);
        assert(views[i as int] == more@[i as int]@);
        out.push(more[i].copy());
        assert(types::component_views(out@) =~= here.push(views[i as int]));
        assert(before + views.take(i + 1) =~= here.push(views[i as int]));
        i = i + 1;
    }
    assert(views.take(views.len() as int) =~= views);
}

fn unmark(added: &Vec<ItemComponent>, c: &NbtCompound, keeps_custom_data: bool, custom_id: i32) -> (res: Vec<
    ItemComponent,
>)
    ensures
        types::component_views(res@) == unmarked(
            types::component_views(added@),
            c@,
            keeps_custom_data,
            custom_id,
        ),
{
    if c.is_empty() && !keeps_custom_data {
        let mut ids: Vec<i32> = Vec::new();
        ids.push(custom_id);
        assert(ids@ =~= seq![custom_id]);
        drop_ids(added, &ids)
    } else {
        let mut out: Vec<ItemComponent> = types::copy_components(added);
        if let Some(i) = find_place(added, custom_id) {
            assert(types::component_views(out@).len() == added.len());
            let component: ItemComponent = ItemComponent { id: custom_id, data: write_custom_data(c) };
            let ghost view = component@;
            let ghost before = types::component_views(out@);
            out.set(i, component);
            assert(types::component_views(out@) =~= before.update(i as int, view));
        }
        out
    }
}

fn find_backup<'a>(cache: &'a ItemBackupCache, id: i32, added: &Vec<ItemComponent>, from: &Target) -> (res: Option<
    (&'a ItemBackup, NbtCompound),
>)
    ensures
        match backup_for(cache@, id, types::component_views(added@), from) {
            Some((backup, c)) => res is Some && res.unwrap().0@ == backup && res.unwrap().1@ == c,
            None => res is None,
        },
{
    let client_item: i32 = match from.ids.items.map_id(id) {
        Some(client_item) => client_item,
        None => {
            return None;
        },
    };
    let c: NbtCompound = match item_nbt::find(added, DataComponent::CustomData, from.cat) {
        Some(data) => match read_custom_data(data) {
            Some(c) => c,
            None => {
                return None;
            },
        },
        None => {
            return None;
        },
    };
    let hash: i32 = match hash::hash_compound(&c) {
        Some(hash) => hash,
        None => {
            return None;
        },
    };
    match cache.get(client_item, hash) {
        Some(backup) => {
            if backup.server_item_id != id {
                return None;
            }
            match c.get_compound("PJM|26_3_backup".as_bytes()) {
                Some(marker) => {
                    if matches_marker(&marker, &backup.restore_added, &backup.restore_removed) {
                        Some((backup, c))
                    } else {
                        None
                    }
                },
                None => None,
            }
        },
        None => None,
    }
}

/// Takes the marker out of a stack that a client sent whole, and puts back what it
/// stands for.
pub fn restore_full_item(connection: &UserConnection, item: Item, from: &Target) -> (res: Item)
    ensures
        res@ == restored(connection.backups@, item@, from),
{
    if from.version >= version::V_26_3 {
        return item;
    }
    match item {
        Item::Structured { count, id, added, removed } => {
            match find_backup(&connection.backups, id, &added, from) {
                Some((backup, c)) => {
                    let mut c: NbtCompound = c;
                    c.remove("PJM|26_3_backup".as_bytes());
                    let custom_id: i32 = from.cat.component_id(DataComponent::CustomData);
                    let plain: Vec<ItemComponent> = unmark(
                        &added,
                        &c,
                        backup.server_has_custom_data,
                        custom_id,
                    );
                    let mut all: Vec<ItemComponent> = drop_ids(&plain, &backup.remove_server_added);
                    append_components(&mut all, &backup.restore_added);
                    let mut gone: Vec<i32> = ids_left(&removed, &backup.remove_server_removed);
                    gone.extend_from_slice(backup.restore_removed.as_slice());
                    Item::Structured { count, id, added: all, removed: gone }
                },
                None => Item::Structured { count, id, added, removed },
            }
        },
        other => other,
    }
}

// --- stacks that a client names by hashes --------------------------------------------------------------

/// A stack as clients from 1.21.5 on click it: its components by the hashes of
/// their values.
pub struct HashedItem {
    pub id: i32,
    pub count: i32,
    pub added: Vec<(i32, i32)>,
    pub removed: Vec<i32>,
}

#[verifier::ext_equal]
pub struct Hashed {
    pub id: i32,
    pub count: i32,
    pub added: Seq<(i32, i32)>,
    pub removed: Seq<i32>,
}

impl View for HashedItem {
    type V = Hashed;

    open spec fn view(&self) -> Hashed {
        Hashed { id: self.id, count: self.count, added: self.added@, removed: self.removed@ }
    }
}

pub open spec fn first_hash(added: Seq<(i32, i32)>, id: i32, i: int) -> Option<i32>
    decreases added.len() - i,
{
    if i < 0 || i >= added.len() {
        None
    } else if added[i].0 == id {
        Some(added[i].1)
    } else {
        first_hash(added, id, i + 1)
    }
}

/// The hashes under the server's ids. The server takes no notice of custom data,
/// which counts as zero.
pub open spec fn hashes_native(out: Seq<(i32, i32)>, added: Seq<(i32, i32)>, from: &Target, i: int) -> Seq<(i32, i32)>
    decreases added.len() - i,
{
    if i < 0 || i >= added.len() {
        out
    } else {
        hashes_native(
            match item::component_id_native(added[i].0, from) {
                Some(id) => out.push(
                    (
                        id,
                        if id == catalog::id_of(from.cat, DataComponent::CustomData) {
                            0i32
                        } else {
                            added[i].1
                        },
                    ),
                ),
                None => out,
            },
            added,
            from,
            i + 1,
        )
    }
}

/// The hashes whose ids are not listed, and are not `other`.
pub open spec fn hashes_without(
    out: Seq<(i32, i32)>,
    added: Seq<(i32, i32)>,
    ids: Seq<i32>,
    other: Option<i32>,
    i: int,
) -> Seq<(i32, i32)>
    decreases added.len() - i,
{
    if i < 0 || i >= added.len() {
        out
    } else {
        hashes_without(
            if ids.contains(added[i].0) || other == Some(added[i].0) {
                out
            } else {
                out.push(added[i])
            },
            added,
            ids,
            other,
            i + 1,
        )
    }
}

/// The backup that a clicked stack stands for.
pub open spec fn clicked_backup(rows: Seq<Row>, item: Hashed, from: &Target) -> Option<Backup> {
    match item::own_component_mapped(DataComponent::CustomData, from) {
        Some(custom_id) => match first_hash(item.added, custom_id, 0) {
            Some(hash) => cached(rows, item.id, hash),
            None => None,
        },
        None => None,
    }
}

/// A clicked stack under the server's ids, with what its marker stands for put
/// back; nothing where the server does not know the item.
pub open spec fn hashed_native(rows: Seq<Row>, item: Hashed, from: &Target) -> Option<Hashed> {
    match mapping::unmapped(from.ids.items@, item.id) {
        None => None,
        Some(id) => {
            let added = hashes_native(seq![], item.added, from, 0);
            let removed = item::removed_native(seq![], item.removed, 0, from);
            Some(
                match clicked_backup(rows, item, from) {
                    Some(backup) => if backup.server_item_id == id {
                        Hashed {
                            id,
                            count: item.count,
                            added: hashes_without(
                                seq![],
                                added,
                                backup.remove_server_added,
                                if backup.server_has_custom_data {
                                    None
                                } else {
                                    Some(catalog::id_of(from.cat, DataComponent::CustomData))
                                },
                                0,
                            ) + backup.restore_added_hashes,
                            removed: ids_without(seq![], removed, backup.remove_server_removed, 0)
                                + backup.restore_removed,
                        }
                    } else {
                        Hashed { id, count: item.count, added, removed }
                    },
                    None => Hashed { id, count: item.count, added, removed },
                },
            )
        },
    }
}

#[verifier::loop_isolation(false)]
fn find_hash(added: &Vec<(i32, i32)>, id: i32) -> (res: Option<i32>)
    ensures
        res == first_hash(added@, id, 0),
{
    let mut i: usize = 0;
    while i < added.len()
        invariant
            i <= added.len(),
            first_hash(added@, id, 0) == first_hash(added@, id, i as int),
        decreases added.len() - i,
    {
        let (here, hash): (i32, i32) = added[i];
        if here == id {
            return Some(hash);
        }
        i = i + 1;
    }
    None
}

#[verifier::loop_isolation(false)]
fn hashes_from_client(added: &Vec<(i32, i32)>, from: &Target) -> (res: Vec<(i32, i32)>)
    ensures
        res@ == hashes_native(seq![], added@, from, 0),
{
    let custom_id: i32 = from.cat.component_id(DataComponent::CustomData);
    let mut out: Vec<(i32, i32)> = Vec::new();
    let mut i: usize = 0;
    while i < added.len()
        invariant
            i <= added.len(),
            hashes_native(seq![], added@, from, 0) == hashes_native(out@, added@, from, i as int),
        decreases added.len() - i,
    {
        let (client, hash): (i32, i32) = added[i];
        if let Some(id) = item::map_component_id_from_client(client, from) {
            out.push((id, if id == custom_id { 0 } else { hash }));
        }
        i = i + 1;
    }
    out
}

#[verifier::loop_isolation(false)]
fn hashes_left(added: &Vec<(i32, i32)>, ids: &Vec<i32>, other: Option<i32>) -> (res: Vec<(i32, i32)>)
    ensures
        res@ == hashes_without(seq![], added@, ids@, other, 0),
{
    let mut out: Vec<(i32, i32)> = Vec::new();
    let mut i: usize = 0;
    while i < added.len()
        invariant
            i <= added.len(),
            hashes_without(seq![], added@, ids@, other, 0) == hashes_without(out@, added@, ids@, other, i as int),
        decreases added.len() - i,
    {
        let (id, hash): (i32, i32) = added[i];
        let is_other: bool = match other {
            Some(other) => other == id,
            None => false,
        };
        if !order::holds_id(ids, id) && !is_other {
            out.push((id, hash));
        }
        i = i + 1;
    }
    out
}

fn append_hashes(out: &mut Vec<(i32, i32)>, more: &Vec<(i32, i32)>)
    ensures
        final(out)@ == old(out)@ + more@,
{
    let mut i: usize = 0;
    assert(out@ =~= old(out)@ + more@.take(0));
    while i < more.len()
        invariant
            i <= more.len(),
            out@ == old(out)@ + more@.take(i as int),
        decreases more.len() - i,
    {
        out.push(more[i]);
        assert(out@ =~= old(out)@ + more@.take(i + 1));
        i = i + 1;
    }
    assert(more@.take(more@.len() as int) =~= more@);
}

fn find_clicked<'a>(cache: &'a ItemBackupCache, item: &HashedItem, from: &Target) -> (res: Option<&'a ItemBackup>)
    ensures
        match res {
            Some(backup) => clicked_backup(cache@, item@, from) == Some(backup@),
            None => clicked_backup(cache@, item@, from) is None,
        },
{
    match item::map_component_id(
        from.cat.component_id(DataComponent::CustomData),
        DataComponent::CustomData,
        from,
    ) {
        Some(custom_id) => match find_hash(&item.added, custom_id) {
            Some(hash) => cache.get(item.id, hash),
            None => None,
        },
        None => None,
    }
}

/// Puts a clicked stack under the server's ids, with what its marker stands for
/// put back.
pub fn rewrite_hashed_item(connection: &UserConnection, item: &HashedItem, from: &Target) -> (res: Option<HashedItem>)
    ensures
        match hashed_native(connection.backups@, item@, from) {
            Some(native) => res is Some && res.unwrap()@ == native,
            None => res is None,
        },
{
    let id: i32 = match from.ids.items.unmap_id(item.id) {
        Some(id) => id,
        None => {
            return None;
        },
    };
    let added: Vec<(i32, i32)> = hashes_from_client(&item.added, from);
    let removed: Vec<i32> = item::removed_from_client(&item.removed, from);
    if let Some(backup) = find_clicked(&connection.backups, item, from) {
        if backup.server_item_id == id {
            let other: Option<i32> = if backup.server_has_custom_data {
                None
            } else {
                Some(from.cat.component_id(DataComponent::CustomData))
            };
            let mut all: Vec<(i32, i32)> = hashes_left(&added, &backup.remove_server_added, other);
            append_hashes(&mut all, &backup.restore_added_hashes);
            let mut gone: Vec<i32> = ids_left(&removed, &backup.remove_server_removed);
            gone.extend_from_slice(backup.restore_removed.as_slice());
            return Some(HashedItem { id, count: item.count, added: all, removed: gone });
        }
    }
    Some(HashedItem { id, count: item.count, added, removed })
}

// --- laws ------------------------------------------------------------------------------------------------

/// Whether a backup's marker can be written.
pub open spec fn fits_a_marker(added: Seq<Component>, removed: Seq<i32>) -> bool {
    &&& added.len() <= i32::MAX
    &&& removed.len() <= i32::MAX
    &&& forall|i: int| 0 <= i < added.len() ==> (#[trigger] added[i]).data.len() <= i32::MAX
}

proof fn lemma_marker_names()
    ensures
        wire::key("id").len() == 2,
        wire::key("data").len() == 4,
        wire::key("added").len() == 5,
        wire::key("removed").len() == 7,
        backup_key().len() == 15,
{
    reveal_strlit("id");
    reveal_strlit("data");
    reveal_strlit("added");
    reveal_strlit("removed");
    reveal_strlit("PJM|26_3_backup");
    vstd::utf8::is_ascii_chars_encode_utf8("id"@);
    vstd::utf8::is_ascii_chars_encode_utf8("data"@);
    vstd::utf8::is_ascii_chars_encode_utf8("added"@);
    vstd::utf8::is_ascii_chars_encode_utf8("removed"@);
    vstd::utf8::is_ascii_chars_encode_utf8("PJM|26_3_backup"@);
}

proof fn lemma_empty_compound()
    ensures
        nbt::is_compound(seq![]),
        forall|name: Seq<u8>| !#[trigger] nbt::holds(seq![], name),
{
    assert forall|name: Seq<u8>| !#[trigger] nbt::holds(seq![], name) by {
        if nbt::holds(seq![], name) {
            let k = nbt::position(seq![], name);
            assert(nbt::is_first(seq![], name, k));
        }
    }
}

proof fn lemma_two_entries(a: Seq<u8>, x: Tag, b: Seq<u8>, y: Tag)
    requires
        a != b,
        a.len() < 0x1_0000,
        b.len() < 0x1_0000,
        nbt::is_whole(x),
        nbt::is_whole(y),
    ensures
        ({
            let c = nbt::put(nbt::put(seq![], a, x), b, y);
            &&& c.len() == 2
            &&& nbt::is_compound(c)
            &&& nbt::get(c, a) == Some(x)
            &&& nbt::get(c, b) == Some(y)
        }),
{
    lemma_empty_compound();
    let one = nbt::put(seq![], a, x);
    nbt::puts_keep_compounds(seq![], a, x);
    nbt::put_entries_are_found(seq![], a, x);
    nbt::puts_keep_compounds(one, b, y);
    nbt::put_entries_are_found(one, b, y);
    nbt::put_entries_leave_the_rest(one, b, y, a);
    if nbt::holds(one, b) {
        let k = nbt::position(one, b);
        assert(nbt::is_first(one, b, k));
    }
}

proof fn lemma_marker_entry(c: Component)
    requires
        c.data.len() <= i32::MAX,
    ensures
        spells_in(nbt::compound_tag(marker_entry(c)), c),
        nbt::is_whole(nbt::compound_tag(marker_entry(c))),
{
    lemma_marker_names();
    nbt::plain_tags_are_whole(c.id, c.data, seq![]);
    lemma_two_entries(wire::key("id"), nbt::int_tag(c.id), wire::key("data"), nbt::byte_array_tag(c.data));
    nbt::compounds_read_back(marker_entry(c));
}

/// A marker is recognised as the one of its own backup, and can stand inside custom
/// data.
pub proof fn markers_are_recognised(added: Seq<Component>, removed: Seq<i32>)
    requires
        fits_a_marker(added, removed),
    ensures
        is_marker(marker_of(added, removed), added, removed),
        nbt::compound_of(nbt::compound_tag(marker_of(added, removed))) == Some(marker_of(added, removed)),
        nbt::is_whole(nbt::compound_tag(marker_of(added, removed))),
{
    let tags = marker_entries(added);
    assert forall|i: int| 0 <= i < tags.len() implies nbt::is_whole(#[trigger] tags[i]) && tags[i].kind
        == tags[0].kind by {
        lemma_marker_entry(added[i]);
    }
    nbt::lists_read_back(tags);
    nbt::plain_tags_are_whole(0, seq![], removed);
    lemma_marker_names();
    lemma_two_entries(
        wire::key("added"),
        nbt::list_tag(tags),
        wire::key("removed"),
        nbt::int_array_tag(removed),
    );
    assert(spells_all(tags, added)) by {
        assert forall|i: int| 0 <= i < tags.len() implies #[trigger] spells_in(tags[i], added[i]) by {
            lemma_marker_entry(added[i]);
        }
    }
    nbt::compounds_read_back(marker_of(added, removed));
}

/// Custom data with a marker reads back with the marker, and is what it was without
/// it.
proof fn lemma_marked_data(c: Seq<Entry>, added: Seq<Component>, removed: Seq<i32>)
    requires
        nbt::is_compound(c),
        !nbt::holds(c, backup_key()),
        fits_a_marker(added, removed),
    ensures
        ({
            let shown = with_marker(c, marker_of(added, removed));
            &&& custom_data_of(enc_custom_data(shown)) == Some(shown)
            &&& nbt::compound_in(shown, backup_key()) == Some(marker_of(added, removed))
            &&& nbt::remove(shown, backup_key()) == c
        }),
{
    let tag = nbt::compound_tag(marker_of(added, removed));
    let shown = with_marker(c, marker_of(added, removed));
    markers_are_recognised(added, removed);
    lemma_marker_names();
    nbt::puts_keep_compounds(c, backup_key(), tag);
    nbt::put_entries_are_found(c, backup_key(), tag);
    nbt::compounds_read_back(shown);
    nbt::tags_read_back(nbt::compound_tag(shown), false, seq![]);
    assert(enc_custom_data(shown) + Seq::<u8>::empty() =~= enc_custom_data(shown));
}

/// The custom data of a client's stack, before it is marked.
pub open spec fn client_custom_data(added: Seq<Component>, custom_id: i32) -> Option<Seq<Entry>> {
    match place_of(added, custom_id, 0) {
        Some(i) => custom_data_of(added[i].data),
        None => Some(seq![]),
    }
}

proof fn lemma_client_custom_data(added: Seq<Component>, custom_id: i32)
    ensures
        client_custom_data(added, custom_id) matches Some(c) ==> nbt::is_compound(c),
{
    lemma_empty_compound();
    if let Some(i) = place_of(added, custom_id, 0) {
        if let Some((Some(tag), rest)) = nbt::take_nbt(added[i].data, false) {
            nbt::read_compounds_can_be_written(tag);
        }
    }
}

/// A stack that a client could not hold whole comes back whole: where a backup was
/// made of it, and the client sends the marked stack back as it got it, the server
/// has again every component that was lost and none of the stand-ins, and the custom
/// data is what it was before the marker.
///
/// `back` are the components of the returned stack as the server reads them; all that
/// is asked of them is that the custom data is the marked one. No other stack may have
/// met this one under its key since.
pub proof fn what_a_stack_lost_comes_back(
    rows: Seq<Row>,
    original: Stack,
    shown: Stack,
    back: Stack,
    hashes: Seq<ComponentHash>,
    to: &Target,
)
    requires
        to.version < version::V_26_3,
        well_formed(rows),
        original is Structured,
        shown is Structured,
        back is Structured,
        back->Structured_id == original->Structured_id,
        mapping::mapped(to.ids.items@, original->Structured_id) == Some(shown->Structured_id),
        item::own_component_mapped(DataComponent::CustomData, to) is Some,
        ({
            let custom_id = item::own_component_mapped(DataComponent::CustomData, to).unwrap();
            let backup = backup_of(original, shown, hashes, to);
            &&& backup is Some
            &&& !is_nothing(backup.unwrap())
            &&& fits_a_marker(backup.unwrap().restore_added, backup.unwrap().restore_removed)
            &&& client_custom_data(shown->Structured_added, custom_id) matches Some(c) && !nbt::holds(c, backup_key())
                && ({
                let marked = with_marker(
                    c,
                    marker_of(backup.unwrap().restore_added, backup.unwrap().restore_removed),
                );
                &&& hash::compound_hash(marked) matches Some(hash) && match row_from(
                    rows,
                    shown->Structured_id,
                    hash,
                    0,
                ) {
                    Some(i) => rows[i].backup == backup,
                    None => true,
                }
                &&& item_nbt::data_of(back->Structured_added, DataComponent::CustomData, to.cat) == Some(
                    enc_custom_data(marked),
                )
            })
        }),
    ensures
        ({
            let custom_id = item::own_component_mapped(DataComponent::CustomData, to).unwrap();
            let backup = backup_of(original, shown, hashes, to).unwrap();
            let c = client_custom_data(shown->Structured_added, custom_id).unwrap();
            let plain = unmarked(
                back->Structured_added,
                c,
                backup.server_has_custom_data,
                catalog::id_of(to.cat, DataComponent::CustomData),
            );
            restored(backed_up(rows, original, shown, hashes, to).0, back, to) == (Stack::Structured {
                count: back->Structured_count,
                id: back->Structured_id,
                added: without_ids(seq![], plain, backup.remove_server_added, 0) + backup.restore_added,
                removed: ids_without(seq![], back->Structured_removed, backup.remove_server_removed, 0)
                    + backup.restore_removed,
            })
        }),
{
    let custom_id = item::own_component_mapped(DataComponent::CustomData, to).unwrap();
    let backup = backup_of(original, shown, hashes, to).unwrap();
    let c = client_custom_data(shown->Structured_added, custom_id).unwrap();
    let marker = marker_of(backup.restore_added, backup.restore_removed);
    let data = with_marker(c, marker);
    let hash = hash::compound_hash(data).unwrap();
    lemma_client_custom_data(shown->Structured_added, custom_id);
    lemma_marked_data(c, backup.restore_added, backup.restore_removed);
    markers_are_recognised(backup.restore_added, backup.restore_removed);
    assert(marked(shown, marker, to).1 == Some((shown->Structured_id, hash)));
    a_recorded_backup_is_found(rows, shown->Structured_id, hash, backup);
}

/// The NBT of a client's stack, before it is marked.
pub open spec fn client_nbt(stack: Stack) -> Option<Seq<Entry>> {
    match stack {
        Stack::Nbt { id, count, nbt } => match nbt {
            Some(tag) => nbt::compound_of(tag),
            None => Some(seq![]),
        },
        _ => None,
    }
}

proof fn lemma_marker_is_carried()
    ensures
        item_round_trip::is_carried(backup_key()),
{
    reveal_strlit("PJM|26_3_backup");
    vstd::utf8::is_ascii_chars_encode_utf8("PJM|26_3_backup"@);
    assert(backup_key()[0] == 0x50);
    assert(backup_key().len() == 15);
    reveal_strlit("BlockEntityTag");
    reveal_strlit("CanDestroy");
    reveal_strlit("CanPlaceOn");
    reveal_strlit("CustomModelData");
    reveal_strlit("CustomPotionColor");
    reveal_strlit("CustomPotionEffects");
    reveal_strlit("custom_potion_effects");
    reveal_strlit("Damage");
    reveal_strlit("Enchantments");
    reveal_strlit("Potion");
    reveal_strlit("RepairCost");
    reveal_strlit("SkullOwner");
    reveal_strlit("StoredEnchantments");
    reveal_strlit("Trim");
    reveal_strlit("Unbreakable");
    reveal_strlit("HideFlags");
    reveal_strlit("author");
    reveal_strlit("map");
    reveal_strlit("pages");
    reveal_strlit("resolved");
    reveal_strlit("title");
    reveal_strlit("instrument");
    reveal_strlit("display");
    vstd::utf8::is_ascii_chars_encode_utf8("BlockEntityTag"@);
    vstd::utf8::is_ascii_chars_encode_utf8("CanDestroy"@);
    vstd::utf8::is_ascii_chars_encode_utf8("CanPlaceOn"@);
    vstd::utf8::is_ascii_chars_encode_utf8("CustomModelData"@);
    vstd::utf8::is_ascii_chars_encode_utf8("CustomPotionColor"@);
    vstd::utf8::is_ascii_chars_encode_utf8("CustomPotionEffects"@);
    vstd::utf8::is_ascii_chars_encode_utf8("custom_potion_effects"@);
    vstd::utf8::is_ascii_chars_encode_utf8("Damage"@);
    vstd::utf8::is_ascii_chars_encode_utf8("Enchantments"@);
    vstd::utf8::is_ascii_chars_encode_utf8("Potion"@);
    vstd::utf8::is_ascii_chars_encode_utf8("RepairCost"@);
    vstd::utf8::is_ascii_chars_encode_utf8("SkullOwner"@);
    vstd::utf8::is_ascii_chars_encode_utf8("StoredEnchantments"@);
    vstd::utf8::is_ascii_chars_encode_utf8("Trim"@);
    vstd::utf8::is_ascii_chars_encode_utf8("Unbreakable"@);
    vstd::utf8::is_ascii_chars_encode_utf8("HideFlags"@);
    vstd::utf8::is_ascii_chars_encode_utf8("author"@);
    vstd::utf8::is_ascii_chars_encode_utf8("map"@);
    vstd::utf8::is_ascii_chars_encode_utf8("pages"@);
    vstd::utf8::is_ascii_chars_encode_utf8("resolved"@);
    vstd::utf8::is_ascii_chars_encode_utf8("title"@);
    vstd::utf8::is_ascii_chars_encode_utf8("instrument"@);
    vstd::utf8::is_ascii_chars_encode_utf8("display"@);
    assert(wire::key("CustomModelData")[0] == 0x43);
}

proof fn lemma_marked_nbt(c: Seq<Entry>, added: Seq<Component>, removed: Seq<i32>, to: &Target)
    requires
        nbt::is_compound(c),
        !nbt::holds(c, backup_key()),
        fits_a_marker(added, removed),
        catalog::id_of(to.cat, DataComponent::CustomData) != -1,
    ensures
        ({
            let shown = with_marker(c, marker_of(added, removed));
            let kept = item_nbt::custom_entries(shown, to.cat);
            &&& nbt::compound_of(nbt::compound_tag(shown)) == Some(shown)
            &&& item_nbt::data_of(
                item_nbt::native_components(shown, to.version, to.texts, to.cat),
                DataComponent::CustomData,
                to.cat,
            ) == Some(enc_custom_data(kept))
            &&& custom_data_of(enc_custom_data(kept)) == Some(kept)
            &&& nbt::compound_in(kept, backup_key()) == Some(marker_of(added, removed))
        }),
{
    let tag = nbt::compound_tag(marker_of(added, removed));
    let shown = with_marker(c, marker_of(added, removed));
    let kept = item_nbt::custom_entries(shown, to.cat);
    markers_are_recognised(added, removed);
    lemma_marker_names();
    lemma_marker_is_carried();
    nbt::puts_keep_compounds(c, backup_key(), tag);
    nbt::put_entries_are_found(c, backup_key(), tag);
    nbt::compounds_read_back(shown);
    item_round_trip::carried_tags_are_kept(shown, backup_key(), to.version, to.texts, to.cat);
    nbt::compounds_read_back(kept);
    nbt::tags_read_back(nbt::compound_tag(kept), false, seq![]);
    assert(enc_custom_data(kept) + Seq::<u8>::empty() =~= enc_custom_data(kept));
}

/// A stack that a client of the NBT releases could not hold whole comes back whole,
/// where the client sends the marked stack back as it got it: the server has again
/// every component that was lost and none of the stand-ins, and no marker.
///
/// The item's number has to lead back to the item, and no other stack may have met
/// this one under its key since.
pub proof fn what_a_stack_lost_to_nbt_comes_back(
    rows: Seq<Row>,
    original: Stack,
    shown: Stack,
    hashes: Seq<ComponentHash>,
    to: &Target,
)
    requires
        to.version < version::V_26_3,
        well_formed(rows),
        original is Structured,
        shown is Nbt,
        mapping::mapped(to.ids.items@, original->Structured_id) == Some(shown->Nbt_id),
        catalog::id_of(to.cat, DataComponent::CustomData) != -1,
        ({
            let backup = backup_of(original, shown, hashes, to);
            &&& backup is Some
            &&& !is_nothing(backup.unwrap())
            &&& fits_a_marker(backup.unwrap().restore_added, backup.unwrap().restore_removed)
            &&& client_nbt(shown) matches Some(c) && !nbt::holds(c, backup_key()) && ({
                let marked = with_marker(
                    c,
                    marker_of(backup.unwrap().restore_added, backup.unwrap().restore_removed),
                );
                &&& hash::compound_hash(item_nbt::custom_entries(marked, to.cat)) matches Some(hash)
                    && match row_from(rows, shown->Nbt_id, hash, 0) {
                    Some(i) => rows[i].backup == backup,
                    None => true,
                }
            })
        }),
        item::stack_to_native(backed_up(rows, original, shown, hashes, to).1, to) matches Stack::Structured {
            id,
            ..
        } && id == original->Structured_id,
    ensures
        ({
            let backup = backup_of(original, shown, hashes, to).unwrap();
            let marked = with_marker(
                client_nbt(shown).unwrap(),
                marker_of(backup.restore_added, backup.restore_removed),
            );
            let (after, sent) = backed_up(rows, original, shown, hashes, to);
            let back = item::stack_to_native(sent, to);
            let plain = unmarked(
                back->Structured_added,
                nbt::remove(item_nbt::custom_entries(marked, to.cat), backup_key()),
                backup.server_has_custom_data,
                catalog::id_of(to.cat, DataComponent::CustomData),
            );
            &&& sent is Nbt
            &&& client_nbt(sent) == Some(marked)
            &&& restored(after, back, to) == (Stack::Structured {
                count: back->Structured_count,
                id: original->Structured_id,
                added: without_ids(seq![], plain, backup.remove_server_added, 0) + backup.restore_added,
                removed: ids_without(seq![], back->Structured_removed, backup.remove_server_removed, 0)
                    + backup.restore_removed,
            })
        }),
{
    let backup = backup_of(original, shown, hashes, to).unwrap();
    let c = client_nbt(shown).unwrap();
    let marker = marker_of(backup.restore_added, backup.restore_removed);
    let hash = hash::compound_hash(item_nbt::custom_entries(with_marker(c, marker), to.cat)).unwrap();
    lemma_empty_compound();
    if let Some(tag) = shown->Nbt_nbt {
        nbt::read_compounds_can_be_written(tag);
    }
    lemma_marked_nbt(c, backup.restore_added, backup.restore_removed, to);
    markers_are_recognised(backup.restore_added, backup.restore_removed);
    assert(marked(shown, marker, to).1 == Some((shown->Nbt_id, hash)));
    a_recorded_backup_is_found(rows, shown->Nbt_id, hash, backup);
}

proof fn lemma_placed_contains(s: Seq<Component>, c: Component)
    ensures
        with_placed(s, c).contains(c),
        forall|x: Component| s.contains(x) ==> #[trigger] with_placed(s, c).contains(x),
{
    lemma_component_place(s, c.id, 0);
    let at = component_place_from(s, c.id, 0);
    let all = with_placed(s, c);
    assert(all[at] == c);
    assert forall|x: Component| s.contains(x) implies #[trigger] all.contains(x) by {
        let k = choose|k: int| 0 <= k < s.len() && s[k] == x;
        if k < at {
            assert(all[k] == x);
        } else {
            assert(all[k + 1] == x);
        }
    }
}

/// Whether the client's form of a stack does not bring a component back.
pub open spec fn is_lost_at(sides: SideViews, to: &Target, i: int) -> bool {
    match client_id(sides.source_added[i].id, sides.legacy, to) {
        Some(mapped) => is_lost(sides, sides.source_added[i], mapped, to),
        None => true,
    }
}

proof fn lemma_lost_are_kept(out: Seq<Component>, sides: SideViews, to: &Target, i: int)
    requires
        0 <= i,
    ensures
        forall|x: Component| out.contains(x) ==> #[trigger] lost_from(out, sides, to, i).contains(x),
        forall|j: int|
            i <= j < sides.source_added.len() && #[trigger] is_lost_at(sides, to, j) ==> lost_from(
                out,
                sides,
                to,
                i,
            ).contains(sides.source_added[j]),
    decreases sides.source_added.len() - i,
{
    if i < sides.source_added.len() {
        let c = sides.source_added[i];
        let next = if is_lost_at(sides, to, i) {
            with_placed(out, c)
        } else {
            out
        };
        if is_lost_at(sides, to, i) {
            lemma_placed_contains(out, c);
        }
        lemma_lost_are_kept(next, sides, to, i + 1);
        assert(lost_from(out, sides, to, i) == lost_from(next, sides, to, i + 1));
        assert forall|j: int| i <= j < sides.source_added.len() && #[trigger] is_lost_at(sides, to, j) implies lost_from(
            out,
            sides,
            to,
            i,
        ).contains(sides.source_added[j]) by {
            if j == i {
                assert(next.contains(c));
            }
        }
    }
}

/// Nothing is lost for good: of every component of a stack either the backup has it,
/// or the client has it under an id of its own with the very same payload.
pub proof fn every_component_is_shown_or_kept(
    server_item_id: i32,
    sides: SideViews,
    hashes: Seq<ComponentHash>,
    to: &Target,
    i: int,
)
    requires
        0 <= i < sides.source_added.len(),
        backup_between(server_item_id, sides, hashes, to) is Some,
    ensures
        backup_between(server_item_id, sides, hashes, to).unwrap().restore_added.contains(sides.source_added[i]) || ({
            let mapped = client_id(sides.source_added[i].id, sides.legacy, to);
            mapped is Some && item_nbt::data_from(sides.client_added, mapped.unwrap(), 0) == Some(
                sides.source_added[i].data,
            ) && added_under(sides.source_added, mapped.unwrap(), sides.legacy, to, 0) == 1
        }),
{
    lemma_lost_are_kept(seq![], sides, to, 0);
    if !is_lost_at(sides, to, i) {
        let mapped = client_id(sides.source_added[i].id, sides.legacy, to).unwrap();
        lemma_counted(sides.source_added, mapped, sides.legacy, to, 0, i);
    }
}

proof fn lemma_counted(added: Seq<Component>, mapped: i32, legacy: bool, to: &Target, i: int, k: int)
    requires
        0 <= i <= k < added.len(),
        client_id(added[k].id, legacy, to) == Some(mapped),
    ensures
        added_under(added, mapped, legacy, to, i) >= 1,
    decreases added.len() - i,
{
    if i < k {
        lemma_counted(added, mapped, legacy, to, i + 1, k);
    }
}

// --- order ---------------------------------------------------------------------------------------

pub open spec fn components_sorted(s: Seq<Component>) -> bool {
    forall|i: int, j: int| 0 <= i <= j < s.len() ==> s[i].id <= s[j].id
}

proof fn lemma_component_place(s: Seq<Component>, id: i32, i: int)
    requires
        0 <= i <= s.len(),
    ensures
        i <= component_place_from(s, id, i) <= s.len(),
        forall|j: int| i <= j < component_place_from(s, id, i) ==> (#[trigger] s[j]).id <= id,
        component_place_from(s, id, i) < s.len() ==> s[component_place_from(s, id, i)].id > id,
    decreases s.len() - i,
{
    if i < s.len() && s[i].id <= id {
        lemma_component_place(s, id, i + 1);
    }
}

proof fn lemma_placed_sorted(s: Seq<Component>, c: Component)
    requires
        components_sorted(s),
    ensures
        components_sorted(with_placed(s, c)),
{
    lemma_component_place(s, c.id, 0);
    let p = component_place_from(s, c.id, 0);
    let t = with_placed(s, c);
    assert forall|i: int, j: int| 0 <= i <= j < t.len() implies t[i].id <= t[j].id by {
        if p < s.len() {
            assert(s[p].id > c.id);
        }
    }
}

proof fn lemma_lost_sorted(out: Seq<Component>, sides: SideViews, to: &Target, i: int)
    requires
        components_sorted(out),
    ensures
        components_sorted(lost_from(out, sides, to, i)),
    decreases sides.source_added.len() - i,
{
    if 0 <= i < sides.source_added.len() {
        let c = sides.source_added[i];
        lemma_placed_sorted(out, c);
        lemma_lost_sorted(out, sides, to, i + 1);
        lemma_lost_sorted(with_placed(out, c), sides, to, i + 1);
    }
}

proof fn lemma_lost_removals_sorted(out: Seq<i32>, sides: SideViews, to: &Target, i: int)
    requires
        order::ids_sorted(out),
    ensures
        order::ids_sorted(lost_removals_from(out, sides, to, i)),
    decreases sides.source_removed.len() - i,
{
    if 0 <= i < sides.source_removed.len() {
        let id = sides.source_removed[i];
        order::lemma_with_id(out, id);
        lemma_lost_removals_sorted(out, sides, to, i + 1);
        lemma_lost_removals_sorted(order::with_id(out, id), sides, to, i + 1);
    }
}

proof fn lemma_shown_rising(out: Seq<i32>, mapped: i32, legacy: bool, id: i32, to: &Target)
    requires
        order::ids_rising(out),
    ensures
        order::ids_rising(order::with_new_id(with_shown(out, mapped, legacy, to), id)),
{
    order::lemma_with_new_id(out, mapped);
    if let Some(native) = item::component_id_native(mapped, to) {
        order::lemma_with_new_id(out, native);
    }
    order::lemma_with_new_id(with_shown(out, mapped, legacy, to), id);
}

proof fn lemma_stand_ins_rising(out: Seq<i32>, sides: SideViews, to: &Target, i: int)
    requires
        order::ids_rising(out),
    ensures
        order::ids_rising(stand_ins_from(out, sides, to, i)),
    decreases sides.source_added.len() - i,
{
    if 0 <= i < sides.source_added.len() {
        let c = sides.source_added[i];
        lemma_stand_ins_rising(out, sides, to, i + 1);
        if let Some(mapped) = client_id(c.id, sides.legacy, to) {
            lemma_shown_rising(out, mapped, sides.legacy, c.id, to);
            lemma_stand_ins_rising(
                order::with_new_id(with_shown(out, mapped, sides.legacy, to), c.id),
                sides,
                to,
                i + 1,
            );
        }
    }
}

proof fn lemma_removal_stand_ins_rising(out: Seq<i32>, sides: SideViews, to: &Target, i: int)
    requires
        order::ids_rising(out),
    ensures
        order::ids_rising(removal_stand_ins_from(out, sides, to, i)),
    decreases sides.source_removed.len() - i,
{
    if 0 <= i < sides.source_removed.len() {
        let id = sides.source_removed[i];
        lemma_removal_stand_ins_rising(out, sides, to, i + 1);
        if let Some(mapped) = client_removed_id(id, sides.legacy, to) {
            lemma_shown_rising(out, mapped, false, id, to);
            lemma_removal_stand_ins_rising(
                order::with_new_id(with_shown(out, mapped, false, to), id),
                sides,
                to,
                i + 1,
            );
        }
    }
}

/// A backup lists what is put back in the order of the ids, and what is dropped in
/// the order of the ids with none of them twice.
pub proof fn backups_are_in_order(
    original: Stack,
    downgraded: Stack,
    hashes: Seq<ComponentHash>,
    to: &Target,
    backup: Backup,
)
    requires
        backup_of(original, downgraded, hashes, to) == Some(backup),
    ensures
        components_sorted(backup.restore_added),
        order::ids_sorted(backup.restore_removed),
        order::ids_rising(backup.remove_server_added),
        order::ids_rising(backup.remove_server_removed),
{
    if let Some((added, removed, legacy)) = client_side(downgraded, to) {
        let sides = SideViews {
            source_added: original->Structured_added,
            source_removed: original->Structured_removed,
            client_added: added,
            client_removed: removed,
            legacy,
        };
        lemma_lost_sorted(seq![], sides, to, 0);
        lemma_lost_removals_sorted(seq![], sides, to, 0);
        lemma_stand_ins_rising(seq![], sides, to, 0);
        lemma_removal_stand_ins_rising(seq![], sides, to, 0);
        order::lemma_with_new_id(
            stand_ins_from(seq![], sides, to, 0),
            catalog::id_of(to.cat, DataComponent::CustomModelData),
        );
    }
}

} // verus!
