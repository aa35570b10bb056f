//! What is remembered of each connection between its packets.
use std::collections::HashMap;
use vstd::prelude::*;
use crate::item_backup::ItemBackupCache;
use crate::item_backup;
use crate::recipe_legacy;
use crate::recipe_legacy::RecipeBookStorage;
use crate::version::Version;

verus! {

broadcast use vstd::std_specs::hash::group_hash_axioms;

/// How long a connection without a player is remembered, in nanoseconds.
pub const PRE_PLAYER_CONNECTION_TTL: u64 = 300_000_000_000;

/// The most connections without a player.
pub const MAX_UNBOUND_CONNECTIONS: usize = 2048;

/// After how many new connections the old ones are looked through.
pub const PRUNE_EVERY_NEW_CONNECTIONS: usize = 32;

// --- entities ----------------------------------------------------------------------------------

/// An entity's type, as the server and as the client has it.
#[derive(Clone, Copy, PartialEq, Eq, Structural)]
pub struct TrackedEntityTypes {
    pub server: u16,
    pub client: u16,
}

/// The entities that a client knows of.
pub struct EntityTracker {
    pub client_entity_id: Option<i32>,
    pub entities: HashMap<i32, TrackedEntityTypes>,
    pub min_y: i32,
    pub height: i32,
}

impl View for EntityTracker {
    type V = Map<i32, TrackedEntityTypes>;

    open spec fn view(&self) -> Map<i32, TrackedEntityTypes> {
        self.entities@
    }
}

/// The server's type of an entity among those tracked.
pub open spec fn server_type(entities: Map<i32, TrackedEntityTypes>, id: i32) -> Option<u16> {
    if entities.contains_key(id) {
        Some(entities[id].server)
    } else {
        None
    }
}

pub open spec fn client_type(entities: Map<i32, TrackedEntityTypes>, id: i32) -> Option<u16> {
    if entities.contains_key(id) {
        Some(entities[id].client)
    } else {
        None
    }
}

impl EntityTracker {
    /// What stands besides the entities.
    pub open spec fn same_world(self, other: EntityTracker) -> bool {
        self.client_entity_id == other.client_entity_id && self.min_y == other.min_y && self.height
            == other.height
    }

    pub fn new() -> (res: EntityTracker)
        ensures
            res@ == Map::<i32, TrackedEntityTypes>::empty(),
            res.client_entity_id is None,
            res.min_y == 0,
            res.height == 0,
    {
        EntityTracker { client_entity_id: None, entities: HashMap::new(), min_y: 0, height: 0 }
    }

    pub fn add(&mut self, id: i32, entity_type: u16)
        ensures
            final(self)@ == old(self)@.insert(
                id,
                TrackedEntityTypes { server: entity_type, client: entity_type },
            ),
            final(self).same_world(*old(self)),
    {
        self.add_mapped(id, entity_type, entity_type);
    }

    pub fn add_mapped(&mut self, id: i32, server: u16, client: u16)
        ensures
            final(self)@ == old(self)@.insert(id, TrackedEntityTypes { server, client }),
            final(self).same_world(*old(self)),
    {
        self.entities.insert(id, TrackedEntityTypes { server, client });
    }

    pub fn remove(&mut self, id: i32)
        ensures
            final(self)@ == old(self)@.remove(id),
            final(self).same_world(*old(self)),
    {
        self.entities.remove(&id);
    }

    pub fn entity_type(&self, id: i32) -> (res: Option<u16>)
        ensures
            res == server_type(self@, id),
    {
        match self.entities.get(&id) {
            Some(entity) => Some(entity.server),
            None => None,
        }
    }

    pub fn client_entity_type(&self, id: i32) -> (res: Option<u16>)
        ensures
            res == client_type(self@, id),
    {
        match self.entities.get(&id) {
            Some(entity) => Some(entity.client),
            None => None,
        }
    }

    pub fn clear(&mut self)
        ensures
            final(self)@ == Map::<i32, TrackedEntityTypes>::empty(),
            final(self).same_world(*old(self)),
    {
        self.entities.clear();
    }
}

/// An entity that was added has the type it was added with, until it is removed
/// or another of its id is added; the other entities keep theirs.
pub proof fn tracked_entities_keep_their_types(
    entities: Map<i32, TrackedEntityTypes>,
    id: i32,
    types: TrackedEntityTypes,
    other: i32,
)
    requires
        other != id,
    ensures
        server_type(entities.insert(id, types), id) == Some(types.server),
        client_type(entities.insert(id, types), id) == Some(types.client),
        server_type(entities.insert(id, types), other) == server_type(entities, other),
        server_type(entities.remove(id), id) is None,
        client_type(entities.remove(id), id) is None,
        server_type(entities.remove(id), other) == server_type(entities, other),
        client_type(entities.remove(id), other) == client_type(entities, other),
{
}

// --- connections ---------------------------------------------------------------------------------

pub struct UserConnection {
    pub id: u64,
    pub version: Version,
    pub entity_tracker: EntityTracker,
    pub bound: bool,
    /// When the connection was last used, in nanoseconds.
    pub last_used: u64,
    pub backups: ItemBackupCache,
    /// The server's clock, in ticks, where it has been heard.
    pub game_time: Option<i64>,
    pub recipes: RecipeBookStorage,
}

/// A connection of which nothing has been remembered yet.
pub open spec fn is_new(c: UserConnection, id: u64, version: Version) -> bool {
    &&& c.id == id
    &&& c.version == version
    &&& !c.bound
    &&& c.entity_tracker@ == Map::<i32, TrackedEntityTypes>::empty()
    &&& c.entity_tracker.client_entity_id is None
    &&& c.entity_tracker.min_y == 0
    &&& c.entity_tracker.height == 0
    &&& c.backups@ == Seq::<item_backup::Row>::empty()
    &&& c.game_time is None
    &&& c.recipes@ == recipe_legacy::empty_book()
}

impl UserConnection {
    pub fn new(id: u64, version: Version) -> (res: UserConnection)
        ensures
            is_new(res, id, version),
            res.last_used == 0,
    {
        UserConnection {
            id,
            version,
            entity_tracker: EntityTracker::new(),
            bound: false,
            last_used: 0,
            backups: ItemBackupCache::new(),
            game_time: None,
            recipes: RecipeBookStorage::new(),
        }
    }
}

/// All connections by their keys, with the players they belong to.
pub struct Connections {
    pub entries: HashMap<u64, UserConnection>,
    pub players: HashMap<u64, u64>,
    /// The new connections since the old ones were last looked through.
    pub fresh: usize,
}

/// Whether a connection has gone without a player and without use for too long.
pub open spec fn is_expired(c: UserConnection, now: u64) -> bool {
    !c.bound && now >= c.last_used && now - c.last_used >= PRE_PLAYER_CONNECTION_TTL
}

/// The connections that have not expired.
pub open spec fn unexpired(entries: Map<u64, UserConnection>, now: u64) -> Map<u64, UserConnection> {
    Map::new(
        |key: u64| entries.contains_key(key) && !is_expired(entries[key], now),
        |key: u64| entries[key],
    )
}

/// The keys of the connections without a player.
pub open spec fn unbound(entries: Map<u64, UserConnection>) -> Set<u64> {
    entries.dom().filter(|key: u64| !entries[key].bound)
}

/// How many connections without a player stay when the old ones are looked through:
/// there is room for one more.
pub open spec fn stay_unbound(entries: Map<u64, UserConnection>, now: u64) -> nat {
    let live = unbound(unexpired(entries, now)).len();
    if live <= MAX_UNBOUND_CONNECTIONS - 1 {
        live
    } else {
        (MAX_UNBOUND_CONNECTIONS - 1) as nat
    }
}

/// Whether `after` are the connections that stay when the old ones are looked through.
/// Those with a player do; of the others none that has expired, and as many as there is
/// room for, those that were used last. Which of two that were used at the same time
/// goes is left open.
pub open spec fn is_pruned(before: Map<u64, UserConnection>, after: Map<u64, UserConnection>, now: u64) -> bool {
    &&& forall|key: u64| #[trigger]
        after.contains_key(key) ==> before.contains_key(key) && after[key] == before[key] && !is_expired(
            before[key],
            now,
        )
    &&& forall|key: u64| #[trigger] before.contains_key(key) && before[key].bound ==> after.contains_key(key)
    &&& unbound(after).len() == stay_unbound(before, now)
    &&& forall|kept: u64, dropped: u64|
        unbound(after).contains(kept) && #[trigger] unexpired(before, now).contains_key(dropped)
            && !after.contains_key(dropped) ==> (#[trigger] after[kept]).last_used >= before[dropped].last_used
}

fn expired(c: &UserConnection, now: u64) -> (res: bool)
    ensures
        res == is_expired(*c, now),
{
    !c.bound && now >= c.last_used && now - c.last_used >= PRE_PLAYER_CONNECTION_TTL
}

fn keys_of(entries: &HashMap<u64, UserConnection>) -> (res: Vec<u64>)
    ensures
        res@.no_duplicates(),
        forall|key: u64| res@.contains(key) <==> #[trigger] entries@.contains_key(key),
{
    let mut keys: Vec<u64> = Vec::new();
    let ghost all = vstd::std_specs::iter::IteratorSpec::remaining(&vstd::std_specs::hash::spec_keys_iter(entries));
    for key in it: entries.keys()
        invariant
            it.seq() == all,
            keys.len() == it.index(),
            forall|j: int| 0 <= j < keys.len() ==> keys@[j] == *it.seq()[j],
    {
        keys.push(*key);
    }
    assert(keys@ =~= all.unref());
    keys
}

#[verifier::loop_isolation(false)]
fn count_unbound(entries: &HashMap<u64, UserConnection>) -> (res: usize)
    ensures
        res == unbound(entries@).len(),
{
    let keys: Vec<u64> = keys_of(entries);
    let mut count: usize = 0;
    let ghost mut found = Set::<u64>::empty();
    let mut i: usize = 0;
    while i < keys.len()
        invariant
            i <= keys.len(),
            count <= i,
            found.finite(),
            found.len() == count,
            forall|key: u64| #[trigger]
                found.contains(key) <==> keys@.take(i as int).contains(key) && !entries@[key].bound,
        decreases keys.len() - i,
    {
        let key: u64 = keys[i];
        let ghost seen = keys@.take(i as int);
        let ghost next = keys@.take(i + 1);
        assert(keys@.contains(key));
        proof {
            assert(next =~= seen.push(key));
            assert(!seen.contains(key)) by {
                if seen.contains(key) {
                    let j = choose|j: int| 0 <= j < seen.len() && seen[j] == key;
                    assert(keys@[j] == keys@[i as int]);
                }
            }
            assert forall|k: u64| next.contains(k) <==> seen.contains(k) || k == key by {
                if seen.contains(k) {
                    let j = choose|j: int| 0 <= j < seen.len() && seen[j] == k;
                    assert(next[j] == k);
                }
                assert(next[i as int] == key);
            }
        }
        if let Some(c) = entries.get(&key) {
            if !c.bound {
                count = count + 1;
                proof {
                    found = found.insert(key);
                }
            }
        }
        i = i + 1;
    }
    assert(keys@.take(keys@.len() as int) =~= keys@);
    assert(found =~= unbound(entries@));
    count
}

#[verifier::loop_isolation(false)]
fn find_oldest(entries: &HashMap<u64, UserConnection>, keys: &Vec<u64>) -> (res: Option<u64>)
    requires
        forall|key: u64| #[trigger] entries@.contains_key(key) ==> keys@.contains(key),
    ensures
        match res {
            Some(oldest) => unbound(entries@).contains(oldest) && forall|key: u64|
                unbound(entries@).contains(key) ==> entries@[oldest].last_used <= (#[trigger] entries@[key]).last_used,
            None => forall|key: u64| !unbound(entries@).contains(key),
        },
{
    let mut best: Option<u64> = None;
    let mut age: u64 = 0;
    let mut i: usize = 0;
    while i < keys.len()
        invariant
            i <= keys.len(),
            match best {
                Some(oldest) => unbound(entries@).contains(oldest) && entries@[oldest].last_used == age,
                None => true,
            },
            forall|j: int|
                0 <= j < i && unbound(entries@).contains(#[trigger] keys@[j]) ==> best is Some && age
                    <= entries@[keys@[j]].last_used,
        decreases keys.len() - i,
    {
        let key: u64 = keys[i];
        if let Some(c) = entries.get(&key) {
            if !c.bound && (best.is_none() || c.last_used < age) {
                best = Some(key);
                age = c.last_used;
            }
        }
        i = i + 1;
    }
    proof {
        assert forall|key: u64| unbound(entries@).contains(key) implies best is Some && age
            <= (#[trigger] entries@[key]).last_used by {
            assert(entries@.contains_key(key));
            let j = choose|j: int| 0 <= j < keys@.len() && keys@[j] == key;
            assert(unbound(entries@).contains(keys@[j]));
        }
        assert forall|key: u64| best is None implies !unbound(entries@).contains(key) by {
            if unbound(entries@).contains(key) {
                assert(age <= entries@[key].last_used);
            }
        }
    }
    best
}

#[verifier::loop_isolation(false)]
fn drop_expired(entries: &mut HashMap<u64, UserConnection>, keys: &Vec<u64>, now: u64)
    requires
        forall|key: u64| #[trigger] old(entries)@.contains_key(key) ==> keys@.contains(key),
    ensures
        final(entries)@ == unexpired(old(entries)@, now),
{
    let ghost all = entries@;
    let mut i: usize = 0;
    while i < keys.len()
        invariant
            i <= keys.len(),
            forall|key: u64| #[trigger] entries@.contains_key(key) ==> all.contains_key(key) && entries@[key] == all[key],
            forall|key: u64|
                all.contains_key(key) && !is_expired(all[key], now) ==> #[trigger] entries@.contains_key(key),
            forall|j: int|
                0 <= j < i && entries@.contains_key(#[trigger] keys@[j]) ==> !is_expired(all[keys@[j]], now),
        decreases keys.len() - i,
    {
        let key: u64 = keys[i];
        let gone: bool = match entries.get(&key) {
            Some(c) => expired(c, now),
            None => false,
        };
        if gone {
            entries.remove(&key);
        }
        i = i + 1;
    }
    proof {
        assert forall|key: u64| #[trigger] entries@.contains_key(key) implies !is_expired(all[key], now) by {
            let j = choose|j: int| 0 <= j < keys@.len() && keys@[j] == key;
            assert(entries@.contains_key(keys@[j]));
        }
        assert(entries@ =~= unexpired(all, now));
    }
}

/// Drops the expired connections, and the oldest without a player beyond the
/// limit.
#[verifier::loop_isolation(false)]
pub fn prune_unbound(entries: &mut HashMap<u64, UserConnection>, now: u64)
    ensures
        is_pruned(old(entries)@, final(entries)@, now),
{
    let ghost all = entries@;
    let keys: Vec<u64> = keys_of(entries);
    drop_expired(entries, &keys, now);
    let ghost kept = entries@;
    let mut count: usize = count_unbound(entries);
    while count > MAX_UNBOUND_CONNECTIONS - 1
        invariant
            count == unbound(entries@).len(),
            count >= stay_unbound(all, now),
            count <= unbound(kept).len(),
            forall|key: u64| #[trigger] entries@.contains_key(key) ==> kept.contains_key(key) && entries@[key]
                == kept[key],
            forall|key: u64| #[trigger] kept.contains_key(key) && kept[key].bound ==> entries@.contains_key(key),
            forall|key: u64, dropped: u64|
                unbound(entries@).contains(key) && #[trigger] kept.contains_key(dropped) && !entries@.contains_key(
                    dropped,
                ) ==> (#[trigger] entries@[key]).last_used >= kept[dropped].last_used,
        decreases count,
    {
        let ghost before = entries@;
        match find_oldest(entries, &keys) {
            Some(oldest) => {
                entries.remove(&oldest);
                assert(unbound(entries@) =~= unbound(before).remove(oldest));
            },
            None => {
                assert(unbound(before) =~= Set::<u64>::empty());
            },
        }
        count = count - 1;
    }
    proof {
        assert(kept == unexpired(all, now));
        assert forall|key: u64| #[trigger] all.contains_key(key) && all[key].bound implies entries@.contains_key(key) by {
            assert(kept.contains_key(key));
        }
        assert forall|key: u64| #[trigger] entries@.contains_key(key) implies all.contains_key(key) && entries@[key]
            == all[key] && !is_expired(all[key], now) by {
            assert(kept.contains_key(key));
        }
    }
}

/// The connections, with an expired one under the key forgotten.
pub open spec fn without_expired(entries: Map<u64, UserConnection>, key: u64, now: u64) -> Map<u64, UserConnection> {
    if entries.contains_key(key) && is_expired(entries[key], now) {
        entries.remove(key)
    } else {
        entries
    }
}

/// Whether a new connection makes the old ones be looked through.
pub open spec fn prunes(entries: Map<u64, UserConnection>, fresh: usize) -> bool {
    fresh + 1 >= PRUNE_EVERY_NEW_CONNECTIONS || unbound(entries).len() >= MAX_UNBOUND_CONNECTIONS
}

/// The count of new connections once a packet on `key` is handled.
pub open spec fn fresh_after(entries: Map<u64, UserConnection>, fresh: usize, key: u64, now: u64) -> usize {
    if without_expired(entries, key, now).contains_key(key) {
        fresh
    } else if fresh + 1 >= PRUNE_EVERY_NEW_CONNECTIONS {
        0
    } else {
        (fresh + 1) as usize
    }
}

/// A connection that a packet has just used.
pub open spec fn used(c: UserConnection, version: Version, now: u64) -> UserConnection {
    UserConnection { version, last_used: now, ..c }
}

/// Whether `c` is what a packet on `key` is handed: the connection that is remembered
/// and has not expired, or else a new one.
pub open spec fn is_handed(
    entries: Map<u64, UserConnection>,
    key: u64,
    version: Version,
    now: u64,
    c: UserConnection,
) -> bool {
    let live = without_expired(entries, key, now);
    if live.contains_key(key) {
        c == used(live[key], version, now)
    } else {
        is_new(c, key, version) && c.last_used == now
    }
}

/// Whether `after` are the connections once a packet on `key` has been handled and has
/// left `c` there.
pub open spec fn is_left(
    before: Map<u64, UserConnection>,
    fresh: usize,
    after: Map<u64, UserConnection>,
    key: u64,
    now: u64,
    c: UserConnection,
) -> bool {
    let live = without_expired(before, key, now);
    &&& after.contains_key(key)
    &&& after[key] == c
    &&& if !live.contains_key(key) && prunes(live, fresh) {
        is_pruned(live, after.remove(key), now)
    } else {
        after == live.insert(key, c)
    }
}

impl Connections {
    pub fn new() -> (res: Connections)
        ensures
            res.entries@ == Map::<u64, UserConnection>::empty(),
            res.players@ == Map::<u64, u64>::empty(),
            res.fresh == 0,
    {
        Connections { entries: HashMap::new(), players: HashMap::new(), fresh: 0 }
    }
}

/// The connection under a key, made where there is none, for one use.
pub fn with_connection(connections: &mut Connections, key: u64, version: Version, now: u64) -> (connection:
    &mut UserConnection)
    ensures
        final(connections).players == old(connections).players,
        final(connections).fresh == fresh_after(old(connections).entries@, old(connections).fresh, key, now),
        is_handed(old(connections).entries@, key, version, now, *connection),
        is_left(
            old(connections).entries@,
            old(connections).fresh,
            final(connections).entries@,
            key,
            now,
            *final(connection),
        ),
{
    let ghost before = connections.entries@;
    let gone: bool = match connections.entries.get(&key) {
        Some(c) => expired(c, now),
        None => false,
    };
    if gone {
        connections.entries.remove(&key);
    }
    let ghost live = connections.entries@;
    assert(live == without_expired(before, key, now));
    if !connections.entries.contains_key(&key) {
        let due: bool = connections.fresh >= PRUNE_EVERY_NEW_CONNECTIONS - 1;
        if due {
            connections.fresh = 0;
        } else {
            connections.fresh = connections.fresh + 1;
        }
        if due || count_unbound(&connections.entries) >= MAX_UNBOUND_CONNECTIONS {
            prune_unbound(&mut connections.entries, now);
        }
    }
    let ghost ready = connections.entries@;
    let connection: &mut UserConnection = connections.entries.entry(key).or_insert(UserConnection::new(key, version));
    connection.last_used = now;
    connection.version = version;
    proof {
        assert forall|c: UserConnection| !ready.contains_key(key) implies #[trigger] ready.insert(key, c).remove(key)
            == ready by {
            assert(ready.insert(key, c).remove(key) =~= ready);
        }
    }
    connection
}

/// The connections without the one under a key.
pub open spec fn forgotten(entries: Map<u64, UserConnection>, key: u64) -> Map<u64, UserConnection> {
    entries.remove(key)
}

/// Forgets a connection.
pub fn remove_connection(connections: &mut Connections, key: u64)
    ensures
        final(connections).entries@ == forgotten(old(connections).entries@, key),
        final(connections).players == old(connections).players,
        final(connections).fresh == old(connections).fresh,
{
    connections.entries.remove(&key);
}

/// A player's key, by the halves of its UUID.
pub open spec fn key_of_player(high: u64, low: u64) -> u64 {
    ((high % 0x1_0000_0000 * 0x1_0000_0000 + high / 0x1_0000_0000) as u64) ^ low
}

pub fn player_key(high: u64, low: u64) -> (res: u64)
    ensures
        res == key_of_player(high, low),
{
    (high % 0x1_0000_0000 * 0x1_0000_0000 + high / 0x1_0000_0000) ^ low
}

/// Whether the connection under a key has a player.
pub open spec fn has_player(entries: Map<u64, UserConnection>, key: u64) -> bool {
    entries.contains_key(key) && entries[key].bound
}

pub fn is_bound(connections: &Connections, key: u64) -> (res: bool)
    ensures
        res == has_player(connections.entries@, key),
{
    match connections.entries.get(&key) {
        Some(c) => c.bound,
        None => false,
    }
}

/// Whether `after` holds what `before` did, with the connection under `key`, made
/// where there was none, bound to a player.
pub open spec fn bound(
    before: Connections,
    after: Connections,
    key: u64,
    version: Version,
    player: u64,
    now: u64,
) -> bool {
    let live = without_expired(before.entries@, key, now);
    let c = after.entries@[key];
    &&& after.players@ == before.players@.insert(player, key)
    &&& after.fresh == fresh_after(before.entries@, before.fresh, key, now)
    &&& is_left(before.entries@, before.fresh, after.entries@, key, now, c)
    &&& if live.contains_key(key) {
        c == (UserConnection { bound: true, ..used(live[key], version, now) })
    } else {
        c.bound && is_new((UserConnection { bound: false, ..c }), key, version) && c.last_used == now
    }
}

/// Remembers which player a connection belongs to, so that its state can be
/// dropped when the player leaves.
pub fn bind_player(connections: &mut Connections, key: u64, version: Version, player: u64, now: u64)
    ensures
        bound(*old(connections), *final(connections), key, version, player, now),
{
    let connection: &mut UserConnection = with_connection(connections, key, version, now);
    connection.bound = true;
    connections.players.insert(player, key);
}

/// Forgets a player, with the connection that belongs to it.
pub fn remove_player(connections: &mut Connections, player: u64)
    ensures
        final(connections).players@ == old(connections).players@.remove(player),
        final(connections).fresh == old(connections).fresh,
        final(connections).entries@ == if old(connections).players@.contains_key(player) {
            forgotten(old(connections).entries@, old(connections).players@[player])
        } else {
            old(connections).entries@
        },
{
    let found: Option<u64> = connections.players.remove(&player);
    if let Some(key) = found {
        remove_connection(connections, key);
    }
}

// --- laws ---------------------------------------------------------------------------------------

/// Looking through the connections drops none that has a player, leaves none that has
/// expired, and leaves room for a new one.
pub proof fn pruning_keeps_players_and_makes_room(
    before: Map<u64, UserConnection>,
    after: Map<u64, UserConnection>,
    now: u64,
    key: u64,
)
    requires
        is_pruned(before, after, now),
    ensures
        has_player(before, key) ==> after.contains_key(key) && after[key] == before[key],
        after.contains_key(key) ==> before.contains_key(key) && after[key] == before[key] && !is_expired(
            after[key],
            now,
        ),
        unbound(after).len() < MAX_UNBOUND_CONNECTIONS,
{
}

/// Where there is room for all of them, every connection that has not expired stays.
pub proof fn nothing_is_dropped_where_there_is_room(
    before: Map<u64, UserConnection>,
    after: Map<u64, UserConnection>,
    now: u64,
)
    requires
        is_pruned(before, after, now),
        before.dom().finite(),
        unbound(unexpired(before, now)).len() < MAX_UNBOUND_CONNECTIONS,
    ensures
        after == unexpired(before, now),
{
    let live = unexpired(before, now);
    assert(live.dom().subset_of(before.dom()));
    vstd::set_lib::lemma_set_subset_finite(before.dom(), live.dom());
    assert(unbound(after).subset_of(unbound(live)));
    vstd::set_lib::lemma_subset_equality(unbound(after), unbound(live));
    assert forall|key: u64| live.contains_key(key) implies #[trigger] after.contains_key(key) by {
        if !live[key].bound {
            assert(unbound(live).contains(key));
        }
    }
    assert(after =~= live);
}

/// A connection that was forgotten is gone, the others are as they were, and the next
/// packet on its key is handed a new one.
pub proof fn forgotten_connections_start_anew(
    entries: Map<u64, UserConnection>,
    key: u64,
    other: u64,
    version: Version,
    now: u64,
    c: UserConnection,
)
    requires
        is_handed(forgotten(entries, key), key, version, now, c),
        other != key,
    ensures
        !has_player(forgotten(entries, key), key),
        is_new(c, key, version),
        forgotten(entries, key).contains_key(other) == entries.contains_key(other),
        entries.contains_key(other) ==> forgotten(entries, key)[other] == entries[other],
{
}

/// What a packet leaves is what the next packet on the key starts from, with its own
/// release and time; only a connection without a player expires before that.
pub proof fn what_is_left_is_handed_on(
    before: Map<u64, UserConnection>,
    fresh: usize,
    after: Map<u64, UserConnection>,
    key: u64,
    now: u64,
    left: UserConnection,
    version: Version,
    later: u64,
    c: UserConnection,
)
    requires
        is_left(before, fresh, after, key, now, left),
        is_handed(after, key, version, later, c),
    ensures
        !is_expired(left, later) ==> c == used(left, version, later),
        is_expired(left, later) ==> is_new(c, key, version) && c.last_used == later,
{
}

/// A packet on one key changes no other connection: those that stay are as they were,
/// and none goes that has a player.
pub proof fn other_connections_are_left_alone(
    before: Map<u64, UserConnection>,
    fresh: usize,
    after: Map<u64, UserConnection>,
    key: u64,
    now: u64,
    c: UserConnection,
    other: u64,
)
    requires
        is_left(before, fresh, after, key, now, c),
        other != key,
    ensures
        after.contains_key(other) ==> before.contains_key(other) && after[other] == before[other],
        has_player(before, other) ==> after.contains_key(other),
        without_expired(before, key, now).contains_key(key) ==> after.contains_key(other) == before.contains_key(other),
{
    let live = without_expired(before, key, now);
    if !live.contains_key(key) && prunes(live, fresh) {
        let rest = after.remove(key);
        assert(rest.contains_key(other) == after.contains_key(other));
        if live.contains_key(other) && live[other].bound {
            assert(rest.contains_key(other));
        }
    }
}

} // verus!
