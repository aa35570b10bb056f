//! The serializers of entity metadata, by release.
use vstd::prelude::*;
use crate::text;
use crate::version::Version;
use crate::wire;

verus! {

/// What a serializer of the server's release puts on the wire.
#[derive(Clone, Copy, Debug, PartialEq, Eq, Structural)]
pub enum MetaKind {
    Byte,
    VarInt,
    VarLong,
    Float,
    Str,
    Component,
    OptionalComponent,
    Item,
    Bool,
    Rotations,
    BlockPos,
    OptionalBlockPos,
    OptionalUuid,
    BlockState,
    OptionalBlockState,
    Particle,
    Particles,
    VillagerData,
    PaintingVariant,
    Vector3,
    Quaternion,
}

// --- names --------------------------------------------------------------------------------

/// The serializers that are plain numbers.
pub open spec fn is_number(name: Seq<u8>) -> bool {
    ||| name == wire::key("int")
    ||| name == wire::key("direction")
    ||| name == wire::key("optional_unsigned_int")
    ||| name == wire::key("pose")
    ||| name == wire::key("sniffer_state")
    ||| name == wire::key("armadillo_state")
    ||| name == wire::key("copper_golem_state")
    ||| name == wire::key("weathering_copper_state")
    ||| name == wire::key("humanoid_arm")
    ||| name == wire::key("dye_color")
    // The registries of variants, all plain ids with no tables of their own.
    ||| text::ends(name, wire::key("_variant"))
}

/// What the serializer of a name writes; none for one that is never written.
pub open spec fn kind_of_name(name: Seq<u8>) -> Option<MetaKind> {
    if name == wire::key("byte") {
        Some(MetaKind::Byte)
    } else if name == wire::key("long") {
        Some(MetaKind::VarLong)
    } else if name == wire::key("float") {
        Some(MetaKind::Float)
    } else if name == wire::key("string") {
        Some(MetaKind::Str)
    } else if name == wire::key("component") {
        Some(MetaKind::Component)
    } else if name == wire::key("optional_component") {
        Some(MetaKind::OptionalComponent)
    } else if name == wire::key("item_stack") {
        Some(MetaKind::Item)
    } else if name == wire::key("boolean") {
        Some(MetaKind::Bool)
    } else if name == wire::key("rotations") {
        Some(MetaKind::Rotations)
    } else if name == wire::key("block_pos") {
        Some(MetaKind::BlockPos)
    } else if name == wire::key("optional_block_pos") {
        Some(MetaKind::OptionalBlockPos)
    } else if name == wire::key("optional_living_entity_reference") {
        Some(MetaKind::OptionalUuid)
    } else if name == wire::key("block_state") {
        Some(MetaKind::BlockState)
    } else if name == wire::key("optional_block_state") {
        Some(MetaKind::OptionalBlockState)
    } else if name == wire::key("particle") {
        Some(MetaKind::Particle)
    } else if name == wire::key("particles") {
        Some(MetaKind::Particles)
    } else if name == wire::key("villager_data") {
        Some(MetaKind::VillagerData)
    } else if name == wire::key("painting_variant") {
        Some(MetaKind::PaintingVariant)
    } else if name == wire::key("vector3") {
        Some(MetaKind::Vector3)
    } else if name == wire::key("quaternion") {
        Some(MetaKind::Quaternion)
    } else if is_number(name) {
        Some(MetaKind::VarInt)
    } else {
        None
    }
}

pub fn kind_for_name(name: &[u8]) -> (res: Option<MetaKind>)
    ensures
        res == kind_of_name(name@),
{
    if wire::same_bytes(name, "byte".as_bytes()) {
        return Some(MetaKind::Byte);
    }
    if wire::same_bytes(name, "long".as_bytes()) {
        return Some(MetaKind::VarLong);
    }
    if wire::same_bytes(name, "float".as_bytes()) {
        return Some(MetaKind::Float);
    }
    if wire::same_bytes(name, "string".as_bytes()) {
        return Some(MetaKind::Str);
    }
    if wire::same_bytes(name, "component".as_bytes()) {
        return Some(MetaKind::Component);
    }
    if wire::same_bytes(name, "optional_component".as_bytes()) {
        return Some(MetaKind::OptionalComponent);
    }
    if wire::same_bytes(name, "item_stack".as_bytes()) {
        return Some(MetaKind::Item);
    }
    if wire::same_bytes(name, "boolean".as_bytes()) {
        return Some(MetaKind::Bool);
    }
    if wire::same_bytes(name, "rotations".as_bytes()) {
        return Some(MetaKind::Rotations);
    }
    if wire::same_bytes(name, "block_pos".as_bytes()) {
        return Some(MetaKind::BlockPos);
    }
    if wire::same_bytes(name, "optional_block_pos".as_bytes()) {
        return Some(MetaKind::OptionalBlockPos);
    }
    if wire::same_bytes(name, "optional_living_entity_reference".as_bytes()) {
        return Some(MetaKind::OptionalUuid);
    }
    if wire::same_bytes(name, "block_state".as_bytes()) {
        return Some(MetaKind::BlockState);
    }
    if wire::same_bytes(name, "optional_block_state".as_bytes()) {
        return Some(MetaKind::OptionalBlockState);
    }
    if wire::same_bytes(name, "particle".as_bytes()) {
        return Some(MetaKind::Particle);
    }
    if wire::same_bytes(name, "particles".as_bytes()) {
        return Some(MetaKind::Particles);
    }
    if wire::same_bytes(name, "villager_data".as_bytes()) {
        return Some(MetaKind::VillagerData);
    }
    if wire::same_bytes(name, "painting_variant".as_bytes()) {
        return Some(MetaKind::PaintingVariant);
    }
    if wire::same_bytes(name, "vector3".as_bytes()) {
        return Some(MetaKind::Vector3);
    }
    if wire::same_bytes(name, "quaternion".as_bytes()) {
        return Some(MetaKind::Quaternion);
    }
    if wire::same_bytes(name, "int".as_bytes())
        || wire::same_bytes(name, "direction".as_bytes())
        || wire::same_bytes(name, "optional_unsigned_int".as_bytes())
        || wire::same_bytes(name, "pose".as_bytes())
        || wire::same_bytes(name, "sniffer_state".as_bytes())
        || wire::same_bytes(name, "armadillo_state".as_bytes())
        || wire::same_bytes(name, "copper_golem_state".as_bytes())
        || wire::same_bytes(name, "weathering_copper_state".as_bytes())
        || wire::same_bytes(name, "humanoid_arm".as_bytes())
        || wire::same_bytes(name, "dye_color".as_bytes())
        || text::ends_with(name, "_variant".as_bytes()) {
        return Some(MetaKind::VarInt);
    }
    None
}

/// The name that older releases have for a serializer.
pub open spec fn alias_of(name: Seq<u8>) -> Option<Seq<u8>> {
    if name == wire::key("int") {
        Some(wire::key("integer"))
    } else if name == wire::key("component") {
        Some(wire::key("text_component"))
    } else if name == wire::key("optional_component") {
        Some(wire::key("optional_text_component"))
    } else if name == wire::key("rotations") {
        Some(wire::key("rotation"))
    } else if name == wire::key("direction") {
        Some(wire::key("facing"))
    } else if name == wire::key("optional_living_entity_reference") {
        Some(wire::key("lazy_entity_reference"))
    } else if name == wire::key("particles") {
        Some(wire::key("particle_list"))
    } else if name == wire::key("optional_unsigned_int") {
        Some(wire::key("optional_int"))
    } else if name == wire::key("pose") {
        Some(wire::key("entity_pose"))
    } else if name == wire::key("vector3") {
        Some(wire::key("vector_3f"))
    } else if name == wire::key("quaternion") {
        Some(wire::key("quaternion_f"))
    } else if name == wire::key("weathering_copper_state") {
        Some(wire::key("oxidation_level"))
    } else if name == wire::key("resolvable_profile") {
        Some(wire::key("profile"))
    } else if name == wire::key("humanoid_arm") {
        Some(wire::key("arm"))
    } else {
        None
    }
}

fn find_alias(name: &[u8]) -> (res: Option<&'static [u8]>)
    ensures
        match res {
            Some(alias) => alias_of(name@) == Some(alias@),
            None => alias_of(name@) is None,
        },
{
    if wire::same_bytes(name, "int".as_bytes()) {
        return Some("integer".as_bytes());
    }
    if wire::same_bytes(name, "component".as_bytes()) {
        return Some("text_component".as_bytes());
    }
    if wire::same_bytes(name, "optional_component".as_bytes()) {
        return Some("optional_text_component".as_bytes());
    }
    if wire::same_bytes(name, "rotations".as_bytes()) {
        return Some("rotation".as_bytes());
    }
    if wire::same_bytes(name, "direction".as_bytes()) {
        return Some("facing".as_bytes());
    }
    if wire::same_bytes(name, "optional_living_entity_reference".as_bytes()) {
        return Some("lazy_entity_reference".as_bytes());
    }
    if wire::same_bytes(name, "particles".as_bytes()) {
        return Some("particle_list".as_bytes());
    }
    if wire::same_bytes(name, "optional_unsigned_int".as_bytes()) {
        return Some("optional_int".as_bytes());
    }
    if wire::same_bytes(name, "pose".as_bytes()) {
        return Some("entity_pose".as_bytes());
    }
    if wire::same_bytes(name, "vector3".as_bytes()) {
        return Some("vector_3f".as_bytes());
    }
    if wire::same_bytes(name, "quaternion".as_bytes()) {
        return Some("quaternion_f".as_bytes());
    }
    if wire::same_bytes(name, "weathering_copper_state".as_bytes()) {
        return Some("oxidation_level".as_bytes());
    }
    if wire::same_bytes(name, "resolvable_profile".as_bytes()) {
        return Some("profile".as_bytes());
    }
    if wire::same_bytes(name, "humanoid_arm".as_bytes()) {
        return Some("arm".as_bytes());
    }
    None
}

// --- tables --------------------------------------------------------------------------------

/// A serializer of a release: its name and its number.
pub struct MetaType {
    pub name: Vec<u8>,
    pub id: i32,
}

/// The serializers of a release.
pub struct TypeTable {
    pub version: Version,
    pub types: Vec<MetaType>,
}

/// The serializers of all releases, oldest first; the last are the server's. A
/// release without a table of its own has that of the newest older one.
pub struct MetaTypes {
    pub tables: Vec<TypeTable>,
}

/// As `id_of`, from the i-th serializer on.
pub open spec fn id_from(types: Seq<MetaType>, name: Seq<u8>, i: int) -> Option<i32>
    decreases types.len() - i,
{
    if i < 0 || i >= types.len() {
        None
    } else if types[i].id >= 0 && types[i].name@ == name {
        Some(types[i].id)
    } else {
        id_from(types, name, i + 1)
    }
}

/// The number of a serializer under one of its own names; a negative one is none.
pub open spec fn id_of(types: Seq<MetaType>, name: Seq<u8>) -> Option<i32> {
    id_from(types, name, 0)
}

/// The number that a release has for one of the server's serializers: under the
/// server's name, else under the older one. A reference to a living entity was an
/// optional UUID before.
pub open spec fn id_under_any_name(types: Seq<MetaType>, name: Seq<u8>) -> Option<i32> {
    match id_of(types, name) {
        Some(id) => Some(id),
        None => match alias_of(name) {
            Some(alias) => match id_of(types, alias) {
                Some(id) => Some(id),
                None => if name == wire::key("optional_living_entity_reference") {
                    id_of(types, wire::key("optional_uuid"))
                } else {
                    None
                },
            },
            None => None,
        },
    }
}

pub open spec fn name_from(types: Seq<MetaType>, id: i32, i: int) -> Option<Seq<u8>>
    decreases types.len() - i,
{
    if i < 0 || i >= types.len() {
        None
    } else if types[i].id == id {
        Some(types[i].name@)
    } else {
        name_from(types, id, i + 1)
    }
}

/// The name of a serializer; a negative number is none.
pub open spec fn name_of(types: Seq<MetaType>, id: i32) -> Option<Seq<u8>> {
    if id < 0 {
        None
    } else {
        name_from(types, id, 0)
    }
}

/// The place of the newest table that is no newer than a release, among the first
/// `n`.
pub open spec fn table_before(tables: Seq<TypeTable>, version: Version, n: int) -> Option<int>
    decreases n,
{
    if n <= 0 || n > tables.len() {
        None
    } else if tables[n - 1].version <= version {
        Some(n - 1)
    } else {
        table_before(tables, version, n - 1)
    }
}

/// The serializers of a release; none before the oldest table.
pub open spec fn types_of(tables: Seq<TypeTable>, version: Version) -> Option<Seq<MetaType>> {
    match table_before(tables, version, tables.len() as int) {
        Some(i) => Some(tables[i].types@),
        None => None,
    }
}

/// The server's serializers.
pub open spec fn native_types(tables: Seq<TypeTable>) -> Seq<MetaType> {
    if tables.len() == 0 {
        seq![]
    } else {
        tables.last().types@
    }
}

#[verifier::loop_isolation(false)]
fn find_id(types: &Vec<MetaType>, name: &[u8]) -> (res: Option<i32>)
    ensures
        res == id_of(types@, name@),
{
    let mut i: usize = 0;
    while i < types.len()
        invariant
            i <= types.len(),
            id_of(types@, name@) == id_from(types@, name@, i as int),
        decreases types.len() - i,
    {
        if types[i].id >= 0 && wire::same_bytes(types[i].name.as_slice(), name) {
            return Some(types[i].id);
        }
        i = i + 1;
    }
    None
}

fn find_under_any_name(types: &Vec<MetaType>, name: &[u8]) -> (res: Option<i32>)
    ensures
        res == id_under_any_name(types@, name@),
{
    if let Some(id) = find_id(types, name) {
        return Some(id);
    }
    let alias: &[u8] = match find_alias(name) {
        Some(alias) => alias,
        None => {
            return None;
        },
    };
    if let Some(id) = find_id(types, alias) {
        return Some(id);
    }
    if wire::same_bytes(name, "optional_living_entity_reference".as_bytes()) {
        return find_id(types, "optional_uuid".as_bytes());
    }
    None
}

#[verifier::loop_isolation(false)]
fn find_name(types: &Vec<MetaType>, id: i32) -> (res: Option<&[u8]>)
    ensures
        match res {
            Some(name) => name_of(types@, id) == Some(name@),
            None => name_of(types@, id) is None,
        },
{
    if id < 0 {
        return None;
    }
    let mut i: usize = 0;
    while i < types.len()
        invariant
            i <= types.len(),
            name_from(types@, id, 0) == name_from(types@, id, i as int),
        decreases types.len() - i,
    {
        if types[i].id == id {
            return Some(types[i].name.as_slice());
        }
        i = i + 1;
    }
    None
}

// --- numbers by release ----------------------------------------------------------------------

/// What a release has for one of the server's serializers.
pub open spec fn id_for_version(tables: Seq<TypeTable>, id: i32, version: Version) -> Option<i32> {
    match (types_of(tables, version), name_of(native_types(tables), id)) {
        (Some(types), Some(name)) => id_under_any_name(types, name),
        _ => None,
    }
}

/// What a release has for the server's serializer of a name.
pub open spec fn id_for_name(tables: Seq<TypeTable>, name: Seq<u8>, version: Version) -> Option<i32> {
    match id_of(native_types(tables), name) {
        Some(id) => id_for_version(tables, id, version),
        None => None,
    }
}

/// The first of the server's serializers, from the i-th on, that a release has under
/// a number.
pub open spec fn canonical_from(tables: Seq<TypeTable>, wire_id: i32, version: Version, i: int) -> Option<i32>
    decreases native_types(tables).len() - i,
{
    if i < 0 || i >= native_types(tables).len() {
        None
    } else if id_for_version(tables, native_types(tables)[i].id, version) == Some(wire_id) {
        Some(native_types(tables)[i].id)
    } else {
        canonical_from(tables, wire_id, version, i + 1)
    }
}

/// The server's serializer for a number of a release. Older releases have one
/// serializer where the server tells block states that may be missing from those
/// that may not: it counts as the former.
pub open spec fn canonical_id(tables: Seq<TypeTable>, wire_id: i32, version: Version) -> Option<i32> {
    let optional = wire::key("optional_block_state");
    if id_for_name(tables, optional, version) == Some(wire_id) {
        id_of(native_types(tables), optional)
    } else {
        canonical_from(tables, wire_id, version, 0)
    }
}

/// What one of the server's serializers writes.
pub open spec fn kind_of(tables: Seq<TypeTable>, id: i32) -> Option<MetaKind> {
    match name_of(native_types(tables), id) {
        Some(name) => kind_of_name(name),
        None => None,
    }
}

impl MetaTypes {
    #[verifier::loop_isolation(false)]
    fn types(&self, version: Version) -> (res: Option<&Vec<MetaType>>)
        ensures
            match res {
                Some(types) => types_of(self.tables@, version) == Some(types@),
                None => types_of(self.tables@, version) is None,
            },
    {
        let mut n: usize = self.tables.len();
        while n > 0
            invariant
                n <= self.tables.len(),
                table_before(self.tables@, version, self.tables@.len() as int) == table_before(
                    self.tables@,
                    version,
                    n as int,
                ),
            decreases n,
        {
            if self.tables[n - 1].version <= version {
                return Some(&self.tables[n - 1].types);
            }
            n = n - 1;
        }
        None
    }

    fn native(&self) -> (res: Option<&Vec<MetaType>>)
        ensures
            match res {
                Some(types) => native_types(self.tables@) == types@,
                None => native_types(self.tables@) == Seq::<MetaType>::empty(),
            },
    {
        if self.tables.len() == 0 {
            None
        } else {
            Some(&self.tables[self.tables.len() - 1].types)
        }
    }

    /// What a release has for one of the server's serializers; none for one that it
    /// lacks, and none before the oldest table.
    pub fn meta_data_type_id_for_version(&self, id: i32, version: Version) -> (res: Option<i32>)
        ensures
            res == id_for_version(self.tables@, id, version),
    {
        match (self.types(version), self.native()) {
            (Some(types), Some(native)) => match find_name(native, id) {
                Some(name) => find_under_any_name(types, name),
                None => None,
            },
            _ => None,
        }
    }

    /// What a release has for the server's serializer of a name.
    pub fn meta_data_type_id_for_name(&self, name: &[u8], version: Version) -> (res: Option<i32>)
        ensures
            res == id_for_name(self.tables@, name@, version),
    {
        match self.native() {
            Some(native) => match find_id(native, name) {
                Some(id) => self.meta_data_type_id_for_version(id, version),
                None => None,
            },
            None => None,
        }
    }

    /// The server's serializer for a number of a release.
    #[verifier::loop_isolation(false)]
    pub fn canonical_meta_data_type_id_for_version(&self, wire_id: i32, version: Version) -> (res: Option<i32>)
        ensures
            res == canonical_id(self.tables@, wire_id, version),
    {
        let native: &Vec<MetaType> = match self.native() {
            Some(native) => native,
            None => {
                return None;
            },
        };
        if let Some(shown) = self.meta_data_type_id_for_name("optional_block_state".as_bytes(), version) {
            if shown == wire_id {
                return find_id(native, "optional_block_state".as_bytes());
            }
        }
        let mut i: usize = 0;
        while i < native.len()
            invariant
                i <= native.len(),
                canonical_from(self.tables@, wire_id, version, 0) == canonical_from(
                    self.tables@,
                    wire_id,
                    version,
                    i as int,
                ),
            decreases native.len() - i,
        {
            if let Some(shown) = self.meta_data_type_id_for_version(native[i].id, version) {
                if shown == wire_id {
                    return Some(native[i].id);
                }
            }
            i = i + 1;
        }
        None
    }

    /// What one of the server's serializers writes.
    pub fn meta_kind(&self, id: i32) -> (res: Option<MetaKind>)
        ensures
            res == kind_of(self.tables@, id),
    {
        match self.native() {
            Some(native) => match find_name(native, id) {
                Some(name) => kind_for_name(name),
                None => None,
            },
            None => None,
        }
    }
}

// --- tables from files -----------------------------------------------------------------------

/// The names and numbers of a JSON object, in the order of the names; none where the
/// text is no object of numbers.
pub uninterp spec fn json_numbers(json: Seq<u8>) -> Option<Seq<(Seq<u8>, i32)>>;

pub open spec fn pair_views(pairs: Seq<(Vec<u8>, i32)>) -> Seq<(Seq<u8>, i32)> {
    pairs.map_values(|pair: (Vec<u8>, i32)| (pair.0@, pair.1))
}

/// The object that `serde_json::from_slice` reads out of a text into an ordered map
/// of numbers, as a list. Nothing more is said of the entries than that the text
/// fixes them.
#[verifier::external_body]
fn parse(json: &[u8]) -> (res: Option<Vec<(Vec<u8>, i32)>>)
    ensures
        match res {
            Some(pairs) => json_numbers(json@) == Some(pair_views(pairs@)),
            None => json_numbers(json@) is None,
        },
{
    let parsed = serde_json::from_slice::<std::collections::BTreeMap<String, i32>>(json);
    Some(parsed.ok()?.into_iter().map(|(name, id)| (name.into_bytes(), id)).collect())
}

/// The serializers that a list of names and numbers stands for.
pub open spec fn is_table(table: TypeTable, version: Version, pairs: Seq<(Seq<u8>, i32)>) -> bool {
    &&& table.version == version
    &&& table.types.len() == pairs.len()
    &&& forall|i: int|
        0 <= i < pairs.len() ==> (#[trigger] table.types@[i]).name@ == pairs[i].0 && table.types@[i].id == pairs[i].1
}

/// The table of a release, by its names and numbers.
#[verifier::loop_isolation(false)]
pub fn table_from(version: Version, pairs: Vec<(Vec<u8>, i32)>) -> (res: TypeTable)
    ensures
        is_table(res, version, pair_views(pairs@)),
{
    let mut types: Vec<MetaType> = Vec::new();
    let mut i: usize = 0;
    while i < pairs.len()
        invariant
            i <= pairs.len(),
            types.len() == i,
            forall|k: int|
                0 <= k < i ==> (#[trigger] types@[k]).name@ == pairs@[k].0@ && types@[k].id == pairs@[k].1,
        decreases pairs.len() - i,
    {
        types.push(MetaType { name: pairs[i].0.clone(), id: pairs[i].1 });
        i = i + 1;
    }
    TypeTable { version, types }
}

/// Reads the table of a release out of its file: an object with a number for every
/// name.
pub fn read_table(version: Version, json: &[u8]) -> (res: Option<TypeTable>)
    ensures
        match json_numbers(json@) {
            Some(pairs) => res is Some && is_table(res.unwrap(), version, pairs),
            None => res is None,
        },
{
    match parse(json) {
        Some(pairs) => Some(table_from(version, pairs)),
        None => None,
    }
}

// --- laws -------------------------------------------------------------------------------------------

proof fn lemma_table_is_no_newer(tables: Seq<TypeTable>, version: Version, n: int)
    requires
        0 <= n <= tables.len(),
    ensures
        table_before(tables, version, n) matches Some(i) ==> 0 <= i < n && tables[i].version <= version,
        (forall|i: int| 0 <= i < n ==> (#[trigger] tables[i]).version > version) ==> table_before(
            tables,
            version,
            n,
        ) is None,
    decreases n,
{
    if n > 0 && tables[n - 1].version > version {
        lemma_table_is_no_newer(tables, version, n - 1);
    }
}

/// A release before the oldest table has no serializers at all, in either direction:
/// an old number is never taken for one of a newer release.
pub proof fn releases_before_the_tables_have_no_serializers(tables: Seq<TypeTable>, id: i32, version: Version)
    requires
        forall|i: int| 0 <= i < tables.len() ==> (#[trigger] tables[i]).version > version,
    ensures
        id_for_version(tables, id, version) is None,
        canonical_id(tables, id, version) is None,
{
    lemma_table_is_no_newer(tables, version, tables.len() as int);
    lemma_canonical_is_shown(tables, id, version, 0);
}

proof fn lemma_canonical_by_table(tables: Seq<TypeTable>, wire_id: i32, a: Version, b: Version, i: int)
    requires
        0 <= i,
        types_of(tables, a) == types_of(tables, b),
    ensures
        canonical_from(tables, wire_id, a, i) == canonical_from(tables, wire_id, b, i),
    decreases native_types(tables).len() - i,
{
    if i < native_types(tables).len() {
        lemma_canonical_by_table(tables, wire_id, a, b, i + 1);
    }
}

/// A release without a table of its own has the serializers of the newest older one.
pub proof fn releases_share_the_newest_older_table(tables: Seq<TypeTable>, id: i32, table: int, version: Version)
    requires
        0 <= table < tables.len(),
        tables[table].version <= version,
        forall|i: int| table < i < tables.len() ==> (#[trigger] tables[i]).version > version,
    ensures
        id_for_version(tables, id, version) == id_for_version(tables, id, tables[table].version),
        canonical_id(tables, id, version) == canonical_id(tables, id, tables[table].version),
{
    lemma_same_table(tables, version, table, tables.len() as int);
    assert forall|i: int| table < i < tables.len() implies (#[trigger] tables[i]).version > tables[table].version by {}
    lemma_same_table(tables, tables[table].version, table, tables.len() as int);
    lemma_canonical_by_table(tables, id, version, tables[table].version, 0);
}

proof fn lemma_same_table(tables: Seq<TypeTable>, version: Version, table: int, n: int)
    requires
        0 <= table < n <= tables.len(),
        tables[table].version <= version,
        forall|i: int| table < i < n ==> (#[trigger] tables[i]).version > version,
    ensures
        table_before(tables, version, n) == Some(table),
    decreases n,
{
    if n - 1 > table {
        lemma_same_table(tables, version, table, n - 1);
    }
}

proof fn lemma_number_is_natural(types: Seq<MetaType>, name: Seq<u8>, i: int)
    requires
        0 <= i,
    ensures
        id_from(types, name, i) matches Some(id) ==> id >= 0,
    decreases types.len() - i,
{
    if i < types.len() {
        lemma_number_is_natural(types, name, i + 1);
    }
}

proof fn lemma_wire_id_is_natural(tables: Seq<TypeTable>, id: i32, version: Version)
    ensures
        id_for_version(tables, id, version) matches Some(wire_id) ==> wire_id >= 0,
{
    if let (Some(types), Some(name)) = (types_of(tables, version), name_of(native_types(tables), id)) {
        lemma_number_is_natural(types, name, 0);
        if let Some(alias) = alias_of(name) {
            lemma_number_is_natural(types, alias, 0);
        }
        lemma_number_is_natural(types, wire::key("optional_uuid"), 0);
    }
}

proof fn lemma_number_is_there(types: Seq<MetaType>, id: i32, i: int) -> (k: int)
    requires
        0 <= i,
        name_from(types, id, i) is Some,
    ensures
        i <= k < types.len(),
        types[k].id == id,
    decreases types.len() - i,
{
    if types[i].id == id {
        i
    } else {
        lemma_number_is_there(types, id, i + 1)
    }
}

proof fn lemma_canonical_from(tables: Seq<TypeTable>, wire_id: i32, version: Version, i: int, k: int)
    requires
        0 <= i <= k < native_types(tables).len(),
        id_for_version(tables, native_types(tables)[k].id, version) == Some(wire_id),
    ensures
        canonical_from(tables, wire_id, version, i) matches Some(back) && id_for_version(tables, back, version)
            == Some(wire_id),
    decreases k - i,
{
    if i < k {
        lemma_canonical_from(tables, wire_id, version, i + 1, k);
    }
}

/// The number that a release has for one of the server's serializers leads back to a
/// serializer with that number; to the one of block states that may be missing, where
/// that one shares the number.
pub proof fn wire_ids_lead_back(tables: Seq<TypeTable>, id: i32, wire_id: i32, version: Version)
    requires
        id_for_version(tables, id, version) == Some(wire_id),
    ensures
        canonical_id(tables, wire_id, version) matches Some(back) && id_for_version(tables, back, version) == Some(
            wire_id,
        ),
        id_for_name(tables, wire::key("optional_block_state"), version) == Some(wire_id) ==> canonical_id(
            tables,
            wire_id,
            version,
        ) == id_of(native_types(tables), wire::key("optional_block_state")),
{
    let k = lemma_number_is_there(native_types(tables), id, 0);
    lemma_canonical_from(tables, wire_id, version, 0, k);
}

proof fn lemma_canonical_is_shown(tables: Seq<TypeTable>, wire_id: i32, version: Version, i: int)
    requires
        0 <= i,
    ensures
        canonical_from(tables, wire_id, version, i) matches Some(back) ==> id_for_version(tables, back, version)
            == Some(wire_id),
    decreases native_types(tables).len() - i,
{
    if i < native_types(tables).len() {
        lemma_canonical_is_shown(tables, wire_id, version, i + 1);
    }
}

/// A serializer that a number leads to has that number; a negative one leads nowhere.
pub proof fn negative_wire_ids_lead_nowhere(tables: Seq<TypeTable>, wire_id: i32, version: Version)
    ensures
        canonical_id(tables, wire_id, version) matches Some(back) ==> id_for_version(tables, back, version) == Some(
            wire_id,
        ),
        wire_id < 0 ==> canonical_id(tables, wire_id, version) is None,
{
    lemma_canonical_is_shown(tables, wire_id, version, 0);
    if let Some(back) = canonical_id(tables, wire_id, version) {
        lemma_wire_id_is_natural(tables, back, version);
    }
}

} // verus!
