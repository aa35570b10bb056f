//! What the server's version knows: its data components and their layouts, its
//! registries by name, and the names older releases gave the same things.
use vstd::prelude::*;
use crate::shape::Shape;
use crate::version::Version;
use crate::version;
use crate::wire;

verus! {

/// A data component. Those that some layout treats apart have a name of their
/// own; the others are known by their id.
#[derive(Clone, Copy, PartialEq, Eq, Structural, Debug)]
pub enum DataComponent {
    AttackAnimation,
    AttributeModifiers,
    BlockEntityData,
    BundleContents,
    CanBreak,
    CanPlaceOn,
    ChargedProjectiles,
    Consumable,
    Container,
    CushionColor,
    CustomData,
    CustomModelData,
    CustomName,
    Damage,
    DeathProtection,
    DyedColor,
    Enchantments,
    EntityData,
    Equippable,
    Food,
    Instrument,
    IntangibleProjectile,
    InteractAnimation,
    JukeboxPlayable,
    Lore,
    MapDecorations,
    MapId,
    PaintingVariant,
    PotionContents,
    Profile,
    ProvidesTrimMaterial,
    RepairCost,
    SignTextBack,
    SignTextFront,
    StoredEnchantments,
    SulfurCubeContent,
    Tool,
    TooltipDisplay,
    Trim,
    Unbreakable,
    UseRemainder,
    Weapon,
    WritableBookContent,
    WrittenBookContent,
    Other(u8),
}

/// How a component's payload is laid out from a release on.
pub struct Layout {
    pub component: i32,
    pub since: Version,
    pub shape: Shape,
}

/// The names of a registry's entries, in the order of their ids.
pub struct Registry {
    pub version: Version,
    pub id: Vec<u8>,
    pub entries: Vec<Vec<u8>>,
}

/// The item names of the releases before `until`, in the order of their ids.
pub struct ItemNames {
    pub until: Version,
    pub names: Vec<Vec<u8>>,
}

pub struct Catalog {
    /// The component of each component id.
    pub components: Vec<DataComponent>,
    /// Newer layouts stand before older ones of the same component.
    pub layouts: Vec<Layout>,
    pub registries: Vec<Registry>,
    /// The bare registry key of each enchantment id.
    pub enchantments: Vec<Vec<u8>>,
    /// The bare name of each potion id.
    pub potions: Vec<Vec<u8>>,
    /// The bare name of each attribute id.
    pub attributes: Vec<Vec<u8>>,
    /// The item names of the releases before 1.20.5, oldest first.
    pub items: Vec<ItemNames>,
    /// What an enchantment id of 1.20.5 is called in a tooltip.
    pub enchantment_names: Vec<(u32, Vec<u8>)>,
    /// What each enchantment id is in 1.20.5.
    pub enchantments_1_20_5: crate::mapping::IdMapping,
    /// The bare name of each kind of block entity.
    pub block_entities: Vec<Vec<u8>>,
    /// The server's particles, by id.
    pub particles: Vec<Vec<u8>>,
    /// The server's sounds, by id.
    pub sounds: Vec<Vec<u8>>,
}

pub open spec fn layout_from(rows: Seq<Layout>, component: i32, version: Version, i: int) -> Option<Shape>
    decreases rows.len() - i,
{
    if i < 0 || i >= rows.len() {
        None
    } else if rows[i].component == component && rows[i].since <= version {
        Some(rows[i].shape)
    } else {
        layout_from(rows, component, version, i + 1)
    }
}

/// How the payload of a component is laid out in a release.
pub open spec fn layout_of(cat: &Catalog, component: i32, version: Version) -> Option<Shape> {
    layout_from(cat.layouts@, component, version, 0)
}

/// The component of an id.
pub open spec fn component_of(cat: &Catalog, id: i32) -> Option<DataComponent> {
    if 0 <= id <= 255 && id < cat.components@.len() {
        Some(cat.components@[id as int])
    } else {
        None
    }
}

pub open spec fn id_from(kinds: Seq<DataComponent>, component: DataComponent, i: int) -> i32
    decreases kinds.len() - i,
{
    if i < 0 || i >= kinds.len() || i > 255 {
        -1i32
    } else if kinds[i] == component {
        i as i32
    } else {
        id_from(kinds, component, i + 1)
    }
}

/// The id of a component; -1, which no payload carries, for one that the table
/// leaves out.
pub open spec fn id_of(cat: &Catalog, component: DataComponent) -> i32 {
    id_from(cat.components@, component, 0)
}

proof fn lemma_ids_apart(kinds: Seq<DataComponent>, a: DataComponent, b: DataComponent, i: int)
    requires
        0 <= i,
        a != b,
    ensures
        id_from(kinds, a, i) != -1 ==> id_from(kinds, a, i) >= i,
        id_from(kinds, a, i) != -1 ==> id_from(kinds, a, i) != id_from(kinds, b, i),
    decreases kinds.len() - i,
{
    if i < kinds.len() && i <= 255 {
        lemma_ids_apart(kinds, a, b, i + 1);
        lemma_ids_apart(kinds, b, a, i + 1);
    }
}

/// No two components of the table have the same id.
pub proof fn ids_tell_components_apart(cat: &Catalog, a: DataComponent, b: DataComponent)
    requires
        a != b,
        id_of(cat, a) != -1,
    ensures
        id_of(cat, a) != id_of(cat, b),
{
    lemma_ids_apart(cat.components@, a, b, 0);
}

/// Releases past the newest known registries share them.
pub open spec fn registry_version(version: Version) -> Version {
    if version >= version::V_26_3 {
        version::V_26_3
    } else {
        version
    }
}

pub open spec fn registry_from(
    registries: Seq<Registry>,
    version: Version,
    id: Seq<u8>,
    i: int,
) -> Option<Seq<Vec<u8>>>
    decreases registries.len() - i,
{
    if i < 0 || i >= registries.len() {
        None
    } else if registries[i].version == registry_version(version) && registries[i].id@ == id {
        Some(registries[i].entries@)
    } else {
        registry_from(registries, version, id, i + 1)
    }
}

/// The name of a registry entry.
pub open spec fn entry_name(cat: &Catalog, version: Version, registry: Seq<u8>, id: i32) -> Option<Seq<u8>> {
    match registry_from(cat.registries@, version, registry, 0) {
        Some(entries) => if 0 <= id < entries.len() {
            Some(entries[id as int]@)
        } else {
            None
        },
        None => None,
    }
}

pub open spec fn index_from(entries: Seq<Vec<u8>>, name: Seq<u8>, i: int) -> Option<int>
    decreases entries.len() - i,
{
    if i < 0 || i >= entries.len() {
        None
    } else if entries[i]@ == name {
        Some(i)
    } else {
        index_from(entries, name, i + 1)
    }
}

/// The first place of a name, where it fits an id.
pub open spec fn index_of(entries: Seq<Vec<u8>>, name: Seq<u8>) -> Option<i32> {
    match index_from(entries, name, 0) {
        Some(i) => if i <= i32::MAX {
            Some(i as i32)
        } else {
            None
        },
        None => None,
    }
}

proof fn lemma_index_from(entries: Seq<Vec<u8>>, name: Seq<u8>, i: int)
    requires
        i >= 0,
    ensures
        index_from(entries, name, i) matches Some(k) ==> i <= k < entries.len() && entries[k]@ == name,
    decreases entries.len() - i,
{
    if i < entries.len() && entries[i]@ != name {
        lemma_index_from(entries, name, i + 1);
    }
}

/// What is found is there.
pub proof fn lemma_index_of(entries: Seq<Vec<u8>>, name: Seq<u8>)
    ensures
        index_of(entries, name) matches Some(id) ==> 0 <= id < entries.len() && entries[id as int]@ == name,
{
    lemma_index_from(entries, name, 0);
}

/// Whether no two names of a list are the same.
pub open spec fn are_told_apart(entries: Seq<Vec<u8>>) -> bool {
    forall|i: int, j: int| 0 <= i < j < entries.len() ==> (#[trigger] entries[i])@ != (#[trigger] entries[j])@
}

proof fn lemma_found_from(entries: Seq<Vec<u8>>, i: int, k: int)
    requires
        0 <= i <= k < entries.len(),
        forall|j: int| i <= j < k ==> (#[trigger] entries[j])@ != entries[k]@,
    ensures
        index_from(entries, entries[k]@, i) == Some(k),
    decreases k - i,
{
    if i < k {
        assert(entries[i]@ != entries[k]@);
        lemma_found_from(entries, i + 1, k);
    }
}

/// In a list without double names every name leads back to its id.
pub proof fn names_lead_back(entries: Seq<Vec<u8>>, id: i32)
    requires
        0 <= id < entries.len(),
        are_told_apart(entries),
    ensures
        index_of(entries, entries[id as int]@) == Some(id),
{
    lemma_found_from(entries, 0, id as int);
}

/// The id of a registry entry.
pub open spec fn entry_id(cat: &Catalog, version: Version, registry: Seq<u8>, name: Seq<u8>) -> Option<i32> {
    match registry_from(cat.registries@, version, registry, 0) {
        Some(entries) => index_of(entries, name),
        None => None,
    }
}

/// Whether no two entries of a release's registry have the same name.
pub open spec fn has_distinct_names(cat: &Catalog, version: Version, registry: Seq<u8>) -> bool {
    registry_from(cat.registries@, version, registry, 0) matches Some(entries) ==> are_told_apart(entries)
}

/// An entry that is carried to another release by its name comes back to its own id.
pub proof fn renamed_entries_come_back(
    cat: &Catalog,
    source: Version,
    target: Version,
    registry: Seq<u8>,
    id: i32,
)
    requires
        has_distinct_names(cat, source, registry),
        entry_name(cat, source, registry, id) is Some,
        entry_id(cat, target, registry, entry_name(cat, source, registry, id).unwrap()) is Some,
    ensures
        ({
            let name = entry_name(cat, source, registry, id).unwrap();
            let carried = entry_id(cat, target, registry, name).unwrap();
            &&& entry_name(cat, target, registry, carried) == Some(name)
            &&& entry_id(cat, source, registry, name) == Some(id)
        }),
{
    let name = entry_name(cat, source, registry, id).unwrap();
    names_lead_back(registry_from(cat.registries@, source, registry, 0).unwrap(), id);
    lemma_index_of(registry_from(cat.registries@, target, registry, 0).unwrap(), name);
}

pub open spec fn same_text(found: Option<&[u8]>, wanted: Option<Seq<u8>>) -> bool {
    match found {
        Some(text) => wanted == Some(text@),
        None => wanted is None,
    }
}

/// The first place of a name in a list, where it fits an id.
pub fn find_name(entries: &Vec<Vec<u8>>, name: &[u8]) -> (res: Option<i32>)
    ensures
        res == index_of(entries@, name@),
{
    let mut i: usize = 0;
    while i < entries.len()
        invariant
            i <= entries.len(),
            index_from(entries@, name@, 0) == index_from(entries@, name@, i as int),
        decreases entries.len() - i,
    {
        if wire::same_bytes(entries[i].as_slice(), name) {
            if i as u64 <= 0x7fff_ffff {
                return Some(i as i32);
            }
            return None;
        }
        i = i + 1;
    }
    None
}

/// The name with an id in a list.
pub open spec fn name_at(entries: Seq<Vec<u8>>, id: i32) -> Option<Seq<u8>> {
    if 0 <= id < entries.len() {
        Some(entries[id as int]@)
    } else {
        None
    }
}

pub fn get_name(entries: &Vec<Vec<u8>>, id: i32) -> (res: Option<&[u8]>)
    ensures
        same_text(res, name_at(entries@, id)),
{
    if id >= 0 && (id as u64) < entries.len() as u64 {
        Some(entries[id as usize].as_slice())
    } else {
        None
    }
}

impl Catalog {
    pub fn layout(&self, component: i32, version: Version) -> (res: Option<&Shape>)
        ensures
            match res {
                Some(shape) => layout_of(self, component, version) == Some(*shape),
                None => layout_of(self, component, version) is None,
            },
    {
        let mut i: usize = 0;
        while i < self.layouts.len()
            invariant
                i <= self.layouts.len(),
                layout_of(self, component, version) == layout_from(
                    self.layouts@,
                    component,
                    version,
                    i as int,
                ),
            decreases self.layouts.len() - i,
        {
            if self.layouts[i].component == component && self.layouts[i].since <= version {
                return Some(&self.layouts[i].shape);
            }
            i = i + 1;
        }
        None
    }

    pub fn component(&self, id: i32) -> (res: Option<DataComponent>)
        ensures
            res == component_of(self, id),
    {
        if 0 <= id && id <= 255 && (id as usize) < self.components.len() {
            Some(self.components[id as usize])
        } else {
            None
        }
    }

    pub fn component_id(&self, component: DataComponent) -> (res: i32)
        ensures
            res == id_of(self, component),
    {
        let mut i: usize = 0;
        while i < self.components.len()
            invariant
                i <= self.components.len(),
                id_of(self, component) == id_from(self.components@, component, i as int),
            decreases self.components.len() - i,
        {
            if i > 255 {
                return -1;
            }
            if self.components[i] == component {
                return i as i32;
            }
            i = i + 1;
        }
        -1
    }

    fn registry(&self, version: Version, id: &[u8]) -> (res: Option<&Vec<Vec<u8>>>)
        ensures
            match res {
                Some(entries) => registry_from(self.registries@, version, id@, 0) == Some(entries@),
                None => registry_from(self.registries@, version, id@, 0) is None,
            },
    {
        let wanted: Version = if version >= version::V_26_3 {
            version::V_26_3
        } else {
            version
        };
        let mut i: usize = 0;
        while i < self.registries.len()
            invariant
                i <= self.registries.len(),
                wanted == registry_version(version),
                registry_from(self.registries@, version, id@, 0) == registry_from(
                    self.registries@,
                    version,
                    id@,
                    i as int,
                ),
            decreases self.registries.len() - i,
        {
            if self.registries[i].version == wanted && wire::same_bytes(
                self.registries[i].id.as_slice(),
                id,
            ) {
                return Some(&self.registries[i].entries);
            }
            i = i + 1;
        }
        None
    }

    /// The name of an entry of a registry as it stood in `version`.
    pub fn registry_entry_name(&self, version: Version, registry: &[u8], id: i32) -> (res: Option<&[u8]>)
        ensures
            same_text(res, entry_name(self, version, registry@, id)),
    {
        match self.registry(version, registry) {
            Some(entries) => get_name(entries, id),
            None => None,
        }
    }

    /// The id of an entry of a registry as it stood in `version`.
    pub fn registry_entry_id(&self, version: Version, registry: &[u8], name: &[u8]) -> (res: Option<i32>)
        ensures
            res == entry_id(self, version, registry@, name@),
    {
        match self.registry(version, registry) {
            Some(entries) => find_name(entries, name),
            None => None,
        }
    }
}

} // verus!
