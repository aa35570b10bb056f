//! Tables that take a registry id of the server's version to a client's.
use vstd::prelude::*;

verus! {

/// What each source id becomes; an id without a slot, or with an empty one, has
/// no counterpart.
pub struct IdMapping {
    pub slots: Vec<Option<u32>>,
}

/// What a source id becomes.
pub open spec fn target_of(slots: Seq<Option<u32>>, id: u32) -> Option<u32> {
    if id < slots.len() {
        slots[id as int]
    } else {
        None
    }
}

/// What a signed id becomes: nothing where either side falls outside the
/// registry's range.
pub open spec fn mapped(slots: Seq<Option<u32>>, id: i32) -> Option<i32> {
    if id < 0 {
        None
    } else {
        match target_of(slots, id as u32) {
            Some(target) => if target <= i32::MAX {
                Some(target as i32)
            } else {
                None
            },
            None => None,
        }
    }
}

/// The lowest source id from `i` on that becomes `target`.
pub open spec fn source_from(slots: Seq<Option<u32>>, target: u32, i: int) -> Option<u32>
    decreases slots.len() - i,
{
    if i < 0 || i >= slots.len() || i > u32::MAX {
        None
    } else if slots[i] == Some(target) {
        Some(i as u32)
    } else {
        source_from(slots, target, i + 1)
    }
}

/// The lowest source id that becomes `target`.
pub open spec fn source_of(slots: Seq<Option<u32>>, target: u32) -> Option<u32> {
    source_from(slots, target, 0)
}

pub open spec fn unmapped(slots: Seq<Option<u32>>, id: i32) -> Option<i32> {
    if id < 0 {
        None
    } else {
        match source_of(slots, id as u32) {
            Some(source) => if source <= i32::MAX {
                Some(source as i32)
            } else {
                None
            },
            None => None,
        }
    }
}

impl IdMapping {
    pub open spec fn view(&self) -> Seq<Option<u32>> {
        self.slots@
    }

    pub fn len(&self) -> (res: usize)
        ensures
            res == self@.len(),
    {
        self.slots.len()
    }

    pub fn map(&self, id: u32) -> (res: Option<u32>)
        ensures
            res == target_of(self@, id),
    {
        if (id as u64) < self.slots.len() as u64 {
            self.slots[id as usize]
        } else {
            None
        }
    }

    pub fn map_id(&self, id: i32) -> (res: Option<i32>)
        ensures
            res == mapped(self@, id),
    {
        if id < 0 {
            return None;
        }
        match self.map(id as u32) {
            Some(target) => if target <= 0x7fff_ffff {
                Some(target as i32)
            } else {
                None
            },
            None => None,
        }
    }

    /// The lowest source id that becomes `target`.
    pub fn unmap(&self, target: u32) -> (res: Option<u32>)
        ensures
            res == source_of(self@, target),
    {
        let mut i: usize = 0;
        while i < self.slots.len()
            invariant
                i <= self.slots.len(),
                source_of(self@, target) == source_from(self@, target, i as int),
            decreases self.slots.len() - i,
        {
            if i as u64 > 0xffff_ffff {
                return None;
            }
            if let Some(found) = self.slots[i] {
                if found == target {
                    return Some(i as u32);
                }
            }
            i = i + 1;
        }
        None
    }

    pub fn unmap_id(&self, id: i32) -> (res: Option<i32>)
        ensures
            res == unmapped(self@, id),
    {
        if id < 0 {
            return None;
        }
        match self.unmap(id as u32) {
            Some(source) => if source <= 0x7fff_ffff {
                Some(source as i32)
            } else {
                None
            },
            None => None,
        }
    }
}

/// All the tables between the server's version and one client version.
pub struct ComposedMappings {
    pub items: IdMapping,
    pub blocks: IdMapping,
    pub block_states: IdMapping,
    pub entities: IdMapping,
    pub blockentities: IdMapping,
    pub enchantments: IdMapping,
    pub attributes: IdMapping,
    pub paintings: IdMapping,
    pub sounds: IdMapping,
    pub particles: IdMapping,
    pub recipe_serializers: IdMapping,
    pub slot_displays: IdMapping,
    pub data_component_type: IdMapping,
    /// The model value that marks a source item's stand-in.
    pub custom_model_data: Vec<(u32, i32)>,
}

pub open spec fn model_from(models: Seq<(u32, i32)>, item: u32, i: int) -> Option<i32>
    decreases models.len() - i,
{
    if i < 0 || i >= models.len() {
        None
    } else if models[i].0 == item {
        Some(models[i].1)
    } else {
        model_from(models, item, i + 1)
    }
}

/// The model value that marks the stand-in of a source item.
pub open spec fn model_of(models: Seq<(u32, i32)>, item: i32) -> Option<i32> {
    if item < 0 {
        None
    } else {
        model_from(models, item as u32, 0)
    }
}

/// The targets that fit an id are not below zero.
pub proof fn lemma_mapped_is_natural(slots: Seq<Option<u32>>, id: i32)
    ensures
        mapped(slots, id) matches Some(target) ==> target >= 0,
{
}

impl ComposedMappings {
    pub fn fallback_model(&self, item: i32) -> (res: Option<i32>)
        ensures
            res == model_of(self.custom_model_data@, item),
    {
        if item < 0 {
            return None;
        }
        let mut i: usize = 0;
        while i < self.custom_model_data.len()
            invariant
                i <= self.custom_model_data.len(),
                item >= 0,
                model_of(self.custom_model_data@, item) == model_from(
                    self.custom_model_data@,
                    item as u32,
                    i as int,
                ),
            decreases self.custom_model_data.len() - i,
        {
            if self.custom_model_data[i].0 == item as u32 {
                return Some(self.custom_model_data[i].1);
            }
            i = i + 1;
        }
        None
    }
}

// --- laws -----------------------------------------------------------------------

/// A client id that comes back is the client id of the source id it becomes.
pub proof fn unmap_is_a_preimage(slots: Seq<Option<u32>>, target: u32)
    ensures
        source_of(slots, target) matches Some(source) ==> target_of(slots, source) == Some(target),
{
    lemma_source_from(slots, target, 0);
}

/// Every source id with a counterpart has one that can be brought back, to itself or
/// to a lower one that has the same.
pub proof fn mapped_ids_come_back(slots: Seq<Option<u32>>, source: u32)
    requires
        target_of(slots, source) is Some,
    ensures
        source_of(slots, target_of(slots, source)->0) matches Some(back) && back <= source,
{
    lemma_source_exists(slots, target_of(slots, source)->0, 0, source as int);
}

proof fn lemma_source_from(slots: Seq<Option<u32>>, target: u32, i: int)
    ensures
        source_from(slots, target, i) matches Some(source) ==> target_of(slots, source) == Some(target),
    decreases slots.len() - i,
{
    if 0 <= i < slots.len() && i <= u32::MAX && slots[i] != Some(target) {
        lemma_source_from(slots, target, i + 1);
    }
}

proof fn lemma_source_exists(slots: Seq<Option<u32>>, target: u32, i: int, source: int)
    requires
        0 <= i <= source < slots.len(),
        source <= u32::MAX,
        slots[source] == Some(target),
    ensures
        source_from(slots, target, i) matches Some(back) && back <= source,
    decreases source - i,
{
    if slots[i] != Some(target) {
        lemma_source_exists(slots, target, i + 1, source);
    }
}

} // verus!
