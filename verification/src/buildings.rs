//! Finished buildings, discovered through the global entity registry.
//!
//! Every entity in the game is in `EntityRegistry._entitiesInInstantiationOrder`,
//! which is reached from `GameOverChecker._entityRegistry` -- so no scan of its
//! own, and no dependence on districts. An entity's `_componentCache` gives its
//! template name (`_name`), and the `BlockObjectState` among its components
//! gives whether it is finished.
//!
//! Buildings exist as entities from the moment they are placed, so a tracked one
//! is found while it is still unfinished and then watched. The per-tick cost is
//! one read for the entity count plus one per watched building -- a handful --
//! and the split fires on the tick `_state` becomes `Finished`.
use vstd::prelude::*;

use crate::collections::{is_segment, string_starts_with_segment, ARRAY_DATA};
use crate::memory::{
    field_pointer, i32_at, offset_by, plus, pointer_at, read_i32, read_pointer, read_pointer_raw,
    Memory,
};
use crate::metadata::Module;
use crate::note::{Missing, Note};
use crate::service::{class_vtable, field_of, field_offset, offset_on};
use crate::singletons::{instance_of, Registry};

verus! {

/// Four single-building splits, plus smelter and wood workshop tracked
/// separately for the combined one.
pub const TRACKED: usize = 6;

pub const SMELTER_INDEX: usize = 4;

pub const WOOD_WORKSHOP_INDEX: usize = 5;

/// `BlockObjectState.State`: `Unfinished`, `Finished`, `Preview`.
pub const FINISHED: i32 = 1;

/// Longest component list looked at. Entities have a handful of components;
/// anything near this is a misread rather than a real list.
pub const MAX_COMPONENTS: i32 = 256;

/// Entities inspected per tick while catching up. Each costs about five reads,
/// so this stays around a millisecond in the worst case.
pub const CHUNK: i32 = 32;

/// Entities inspected per tick during the opening baseline walk. That one runs
/// while the game is still loading, so it can afford more.
pub const BASELINE_CHUNK: i32 = 256;

/// Guards against walking a pathological registry.
pub const MAX_ENTITIES: i32 = 500_000;

/// The template names of a tracked building, one for each faction. The two
/// factions' advanced science buildings share one slot: they are separate
/// categories, so only one of these can be built in a given run.
pub open spec fn template_names(slot: int) -> (Seq<char>, Seq<char>) {
    if slot == 0 {
        ("Forester.Folktails"@, "Forester.IronTeeth"@)
    } else if slot == 1 {
        ("GearWorkshop.Folktails"@, "GearWorkshop.IronTeeth"@)
    } else if slot == 2 {
        ("TappersShack.Folktails"@, "TappersShack.IronTeeth"@)
    } else if slot == 3 {
        ("Observatory.Folktails"@, "Numbercruncher.IronTeeth"@)
    } else if slot == 4 {
        ("Smelter.Folktails"@, "Smelter.IronTeeth"@)
    } else {
        ("WoodWorkshop.Folktails"@, "WoodWorkshop.IronTeeth"@)
    }
}

/// The template names of a tracked building, one for each faction.
pub fn templates(slot: usize) -> (names: (&'static str, &'static str))
    requires
        slot < TRACKED,
    ensures
        (names.0@, names.1@) == template_names(slot as int),
{
    match slot {
        0 => ("Forester.Folktails", "Forester.IronTeeth"),
        1 => ("GearWorkshop.Folktails", "GearWorkshop.IronTeeth"),
        2 => ("TappersShack.Folktails", "TappersShack.IronTeeth"),
        3 => ("Observatory.Folktails", "Numbercruncher.IronTeeth"),
        4 => ("Smelter.Folktails", "Smelter.IronTeeth"),
        _ => ("WoodWorkshop.Folktails", "WoodWorkshop.IronTeeth"),
    }
}

/// The split a finished building fires on its own.
#[derive(Clone, Copy, PartialEq, Eq, Debug, Structural)]
pub enum Split {
    Forester,
    GearWorkshop,
    TappersShack,
    AdvancedScience,
    /// On the later of the two, in either order.
    SmelterAndWoodWorkshop,
}

impl Split {
    /// What the split is called.
    pub open spec fn name(self) -> Seq<char> {
        match self {
            Split::Forester => "Forester"@,
            Split::GearWorkshop => "Gear Workshop"@,
            Split::TappersShack => "Tapper's Shack"@,
            Split::AdvancedScience => "Observatory / Numbercruncher"@,
            Split::SmelterAndWoodWorkshop => "Smelter + Wood Workshop"@,
        }
    }

    /// What the split is called.
    pub fn label(&self) -> (label: &'static str)
        ensures
            label@ == self.name(),
    {
        match self {
            Split::Forester => "Forester",
            Split::GearWorkshop => "Gear Workshop",
            Split::TappersShack => "Tapper's Shack",
            Split::AdvancedScience => "Observatory / Numbercruncher",
            Split::SmelterAndWoodWorkshop => "Smelter + Wood Workshop",
        }
    }
}

/// The split that the building in `slot` fires on its own, if any.
pub open spec fn own_split(slot: int) -> Option<Split> {
    if slot == 0 {
        Some(Split::Forester)
    } else if slot == 1 {
        Some(Split::GearWorkshop)
    } else if slot == 2 {
        Some(Split::TappersShack)
    } else if slot == 3 {
        Some(Split::AdvancedScience)
    } else {
        None
    }
}

fn split_of(slot: usize) -> (split: Option<Split>)
    ensures
        split == own_split(slot as int),
{
    match slot {
        0 => Some(Split::Forester),
        1 => Some(Split::GearWorkshop),
        2 => Some(Split::TappersShack),
        3 => Some(Split::AdvancedScience),
        _ => None,
    }
}

/// Where the entities are, and how to get from one to its state.
#[derive(Clone, Copy)]
pub struct Paths {
    /// `_entitiesInInstantiationOrder`, with the offsets of its `_size` and
    /// `_items` so neither the class nor the backing array has to be resolved
    /// again. `_items` is re-read each time, since a growing list reallocates.
    pub entities: u64,
    pub size_offset: u32,
    pub items_offset: u32,
    /// `BaseComponent._componentCache`, then `ComponentCache._name` and
    /// `ComponentCache._components`.
    pub cache_offset: u32,
    pub name_offset: u32,
    pub components_offset: u32,
    /// How a `BlockObjectState` is recognised among an entity's components, and
    /// where its `_state` sits.
    pub block_state_vtable: u64,
    pub state_offset: u32,
}

/// Whether the template name at `name` is one of the building in `slot`.
pub open spec fn names_slot<M: Memory>(memory: &M, name: u64, slot: int) -> bool {
    is_segment(memory, name, template_names(slot).0) || is_segment(
        memory,
        name,
        template_names(slot).1,
    )
}

/// The first slot, from `slot` on, that the template name at `name` belongs to.
pub open spec fn slot_from<M: Memory>(memory: &M, name: u64, slot: int) -> Option<usize>
    decreases TRACKED - slot,
{
    if slot >= TRACKED {
        None
    } else if names_slot(memory, name, slot) {
        Some(slot as usize)
    } else {
        slot_from(memory, name, slot + 1)
    }
}

/// The address of element `i` of the array at `items`.
pub open spec fn element(items: u64, i: int) -> u64 {
    plus(items, (ARRAY_DATA + 8 * i) as u64)
}

/// The first component, from `i` up to `n`, with that vtable.
pub open spec fn component_from<M: Memory>(
    memory: &M,
    vtable: u64,
    items: u64,
    i: int,
    n: int,
) -> Option<u64>
    decreases n - i,
{
    if i >= n {
        None
    } else {
        match pointer_at(memory, element(items, i)) {
            Some(component) => if pointer_at(memory, component) == Some(vtable) {
                Some(component)
            } else {
                component_from(memory, vtable, items, i + 1, n)
            },
            None => component_from(memory, vtable, items, i + 1, n),
        }
    }
}

/// Whether some building watched is the one at `state`.
pub open spec fn is_watched(watched: Seq<(u64, usize)>, state: u64) -> bool {
    exists|i: int| 0 <= i < watched.len() && (#[trigger] watched[i]).0 == state
}

/// The watched buildings with one more, unless it is among them already.
pub open spec fn also_watching(watched: Seq<(u64, usize)>, found: Option<(u64, usize)>) -> Seq<
    (u64, usize),
> {
    match found {
        Some((state, slot)) => if is_watched(watched, state) {
            watched
        } else {
            watched.push((state, slot))
        },
        None => watched,
    }
}

impl Paths {
    /// The entity's `BlockObjectState`, if it has one.
    pub open spec fn block_state<M: Memory>(self, memory: &M, cache: u64) -> Option<u64> {
        match field_pointer(memory, cache, self.components_offset) {
            Some(components) => match (
                i32_at(memory, plus(components, self.size_offset as u64)),
                field_pointer(memory, components, self.items_offset),
            ) {
                (Some(size), Some(items)) => component_from(
                    memory,
                    self.block_state_vtable,
                    items,
                    0,
                    if size < MAX_COMPONENTS {
                        size as int
                    } else {
                        MAX_COMPONENTS as int
                    },
                ),
                _ => None,
            },
            None => None,
        }
    }

    /// What entity `i` is tracked by, if it is: its state and its slot.
    pub open spec fn traced<M: Memory>(self, memory: &M, items: u64, i: int) -> Option<
        (u64, usize),
    > {
        match pointer_at(memory, element(items, i)) {
            Some(entity) => match field_pointer(memory, entity, self.cache_offset) {
                Some(cache) => match field_pointer(memory, cache, self.name_offset) {
                    Some(name) => match (
                        slot_from(memory, name, 0),
                        self.block_state(memory, cache),
                    ) {
                        (Some(slot), Some(state)) => Some((state, slot)),
                        _ => None,
                    },
                    None => None,
                },
                None => None,
            },
            None => None,
        }
    }

    /// The watched buildings after entities `[from, to)` were looked at.
    pub open spec fn inspected<M: Memory>(
        self,
        memory: &M,
        items: u64,
        from: int,
        to: int,
        watched: Seq<(u64, usize)>,
    ) -> Seq<(u64, usize)>
        decreases to - from,
    {
        if from >= to {
            watched
        } else {
            also_watching(
                self.inspected(memory, items, from, to - 1, watched),
                self.traced(memory, items, to - 1),
            )
        }
    }

    /// The watched buildings after entities `[from, to)` were looked at, where
    /// the list can be read.
    pub open spec fn looked_over<M: Memory>(
        self,
        memory: &M,
        from: int,
        to: int,
        watched: Seq<(u64, usize)>,
    ) -> Seq<(u64, usize)> {
        match field_pointer(memory, self.entities, self.items_offset) {
            Some(items) => self.inspected(
                memory,
                items,
                if from < 0 {
                    0
                } else {
                    from
                },
                to,
                watched,
            ),
            None => watched,
        }
    }

    /// The entity count, where it reads as a plausible one.
    pub open spec fn entity_count<M: Memory>(self, memory: &M) -> i32 {
        match i32_at(memory, plus(self.entities, self.size_offset as u64)) {
            Some(n) => if 0 <= n < MAX_ENTITIES {
                n
            } else {
                0
            },
            None => 0,
        }
    }

    /// Whether the building at `state` reads as finished, and is still a
    /// building: a demolished one leaves an address that the allocator may hand
    /// to something else.
    pub open spec fn is_finished<M: Memory>(self, memory: &M, state: u64) -> bool {
        i32_at(memory, plus(state, self.state_offset as u64)) == Some(FINISHED) && pointer_at(
            memory,
            state,
        ) == Some(self.block_state_vtable)
    }

    /// Which slots are finished after the watched buildings were read, and which
    /// of them only now, in order.
    pub open spec fn completed<M: Memory>(
        self,
        memory: &M,
        watched: Seq<(u64, usize)>,
        finished: Seq<bool>,
    ) -> (Seq<bool>, Seq<usize>)
        decreases watched.len(),
    {
        if watched.len() == 0 {
            (finished, Seq::empty())
        } else {
            let (done, newly) = self.completed(memory, watched.drop_last(), finished);
            let (state, slot) = watched.last();
            if !done[slot as int] && self.is_finished(memory, state) {
                (done.update(slot as int, true), newly.push(slot))
            } else {
                (done, newly)
            }
        }
    }

    /// The entity count. One read, and the whole per-tick trigger.
    pub fn count<M: Memory>(&self, memory: &M) -> (count: i32)
        ensures
            count == self.entity_count(memory),
            0 <= count < MAX_ENTITIES,
    {
        match read_i32(memory, offset_by(self.entities, self.size_offset as u64)) {
            Some(n) => if 0 <= n && n < MAX_ENTITIES {
                n
            } else {
                0
            },
            None => 0,
        }
    }

    /// Which split slot an entity's template name belongs to, if any.
    pub fn slot_for<M: Memory>(memory: &M, name: u64) -> (slot: Option<usize>)
        ensures
            slot == slot_from(memory, name, 0),
            slot matches Some(s) ==> s < TRACKED,
    {
        let mut slot: usize = 0;
        while slot < TRACKED
            invariant
                slot <= TRACKED,
                slot_from(memory, name, 0) == slot_from(memory, name, slot as int),
            decreases TRACKED - slot,
        {
            let (folktails, iron_teeth) = templates(slot);
            if string_starts_with_segment(memory, name, folktails) || string_starts_with_segment(
                memory,
                name,
                iron_teeth,
            ) {
                return Some(slot);
            }
            slot = slot + 1;
        }
        None
    }

    /// The entity's `BlockObjectState`, if it has one.
    ///
    /// An entity's components are a plain list, and the one we want is
    /// identified by its vtable -- there is no named field to reach it by. A
    /// `List<T>` of references has the same layout whatever `T` is, so the
    /// offsets taken from the entity list serve here too.
    pub fn block_state_of<M: Memory>(&self, memory: &M, cache: u64) -> (state: Option<u64>)
        ensures
            state == self.block_state(memory, cache),
    {
        let components: u64 = match read_pointer(memory, cache, self.components_offset) {
            Some(components) => components,
            None => {
                return None;
            },
        };
        let size: i32 = match read_i32(memory, offset_by(components, self.size_offset as u64)) {
            Some(size) => size,
            None => {
                return None;
            },
        };
        let items: u64 = match read_pointer(memory, components, self.items_offset) {
            Some(items) => items,
            None => {
                return None;
            },
        };
        let n: i32 = if size < MAX_COMPONENTS {
            size
        } else {
            MAX_COMPONENTS
        };
        let mut i: i32 = 0;
        while i < n
            invariant
                0 <= i,
                n <= MAX_COMPONENTS,
                self.block_state(memory, cache) == component_from(
                    memory,
                    self.block_state_vtable,
                    items,
                    i as int,
                    n as int,
                ),
            decreases n - i,
        {
            if let Some(component) = read_pointer_raw(
                memory,
                offset_by(items, ARRAY_DATA + 8 * i as u64),
            ) {
                if read_pointer_raw(memory, component) == Some(self.block_state_vtable) {
                    return Some(component);
                }
            }
            i = i + 1;
        }
        None
    }

    /// What entity `i` is tracked by, if it is.
    fn track<M: Memory>(&self, memory: &M, items: u64, i: i32) -> (found: Option<(u64, usize)>)
        requires
            0 <= i,
        ensures
            found == self.traced(memory, items, i as int),
            found matches Some((_, slot)) ==> slot < TRACKED,
    {
        let entity: u64 = match read_pointer_raw(
            memory,
            offset_by(items, ARRAY_DATA + 8 * i as u64),
        ) {
            Some(entity) => entity,
            None => {
                return None;
            },
        };
        let cache: u64 = match read_pointer(memory, entity, self.cache_offset) {
            Some(cache) => cache,
            None => {
                return None;
            },
        };
        let name: u64 = match read_pointer(memory, cache, self.name_offset) {
            Some(name) => name,
            None => {
                return None;
            },
        };
        let slot: usize = match Self::slot_for(memory, name) {
            Some(slot) => slot,
            None => {
                return None;
            },
        };
        match self.block_state_of(memory, cache) {
            Some(state) => Some((state, slot)),
            None => None,
        }
    }

    /// Whether the building at `state` is finished.
    ///
    /// One read, and a second only when that says it is finished: confirming
    /// the vtable before firing costs nothing in the case that happens every
    /// tick, and makes a stale address unable to split.
    fn reads_finished<M: Memory>(&self, memory: &M, state: u64) -> (finished: bool)
        ensures
            finished == self.is_finished(memory, state),
    {
        read_i32(memory, offset_by(state, self.state_offset as u64)) == Some(FINISHED)
            && read_pointer_raw(memory, state) == Some(self.block_state_vtable)
    }
}

/// Where the entities are, before the layout of their list is known.
#[derive(Clone, Copy)]
pub struct Reached {
    pub entities: u64,
    pub cache_offset: u32,
    pub name_offset: u32,
    pub components_offset: u32,
    pub block_state_vtable: u64,
    pub state_offset: u32,
}

/// The way to the entities, or the first thing missing on it.
///
/// `EntityRegistry` cannot be located directly, and `EntityService` -- which
/// holds it -- is not a singleton and so is not in the container either.
/// `GameOverChecker` is, and holds the same registry, so it is one hop instead
/// of a scan.
pub open spec fn way_to_entities<M: Memory>(
    memory: &M,
    module: Module,
    entries: Seq<(u64, u64)>,
) -> Result<Reached, Missing> {
    let base = "Timberborn.BaseComponentSystem"@;
    match module.offset(base, "BaseComponent"@, "_componentCache"@) {
        None => Err(Missing::ComponentCacheField),
        Some(cache_offset) => match module.offset(base, "ComponentCache"@, "_name"@) {
            None => Err(Missing::NameField),
            Some(name_offset) => match module.offset(base, "ComponentCache"@, "_components"@) {
                None => Err(Missing::ComponentsField),
                Some(components_offset) => match module.offset(
                    "Timberborn.BlockSystem"@,
                    "BlockObjectState"@,
                    "_state"@,
                ) {
                    None => Err(Missing::StateField),
                    Some(state_offset) => match module.vtable(
                        "Timberborn.BlockSystem"@,
                        "BlockObjectState"@,
                    ) {
                        None => Err(Missing::BlockObjectState),
                        Some(block_state_vtable) => match way_from_checker(
                            memory,
                            module,
                            entries,
                        ) {
                            Err(missing) => Err(missing),
                            Ok(entities) => Ok(
                                Reached {
                                    entities,
                                    cache_offset,
                                    name_offset,
                                    components_offset,
                                    block_state_vtable,
                                    state_offset,
                                },
                            ),
                        },
                    },
                },
            },
        },
    }
}

/// The entity list, by way of the game-over checker in the container.
pub open spec fn way_from_checker<M: Memory>(
    memory: &M,
    module: Module,
    entries: Seq<(u64, u64)>,
) -> Result<u64, Missing> {
    match module.vtable("Timberborn.GameOver"@, "GameOverChecker"@) {
        None => Err(Missing::Checker),
        Some(vtable) => match instance_of(entries, vtable) {
            None => Err(Missing::CheckerInContainer),
            Some(checker) => match offset_on(memory, module, checker, "_entityRegistry"@) {
                None => Err(Missing::RegistryField),
                Some(registry_field) => match field_pointer(memory, checker, registry_field) {
                    None => Err(Missing::RegistryNull),
                    Some(registry) => match offset_on(
                        memory,
                        module,
                        registry,
                        "_entitiesInInstantiationOrder"@,
                    ) {
                        None => Err(Missing::OrderField),
                        Some(order_field) => match field_pointer(memory, registry, order_field) {
                            None => Err(Missing::EntitiesNull),
                            Some(entities) => Ok(entities),
                        },
                    },
                },
            },
        },
    }
}

impl Reached {
    /// Finds the way to the entities, or says what is missing on it. A vtable,
    /// unlike a field offset, only exists once the class has been constructed --
    /// so that one is a "not yet", not a rename.
    pub fn resolve<M: Memory>(memory: &M, module: &Module, container: &Registry) -> (reached:
        Result<Self, Missing>)
        ensures
            reached == way_to_entities(memory, *module, container.entries@),
    {
        // Every entity is a component, so the cache offset comes from
        // BaseComponent rather than from any particular component type.
        let cache_offset: u32 = match field_offset(
            module,
            "Timberborn.BaseComponentSystem",
            "BaseComponent",
            "_componentCache",
        ) {
            Some(offset) => offset,
            None => {
                return Err(Missing::ComponentCacheField);
            },
        };
        let name_offset: u32 = match field_offset(
            module,
            "Timberborn.BaseComponentSystem",
            "ComponentCache",
            "_name",
        ) {
            Some(offset) => offset,
            None => {
                return Err(Missing::NameField);
            },
        };
        let components_offset: u32 = match field_offset(
            module,
            "Timberborn.BaseComponentSystem",
            "ComponentCache",
            "_components",
        ) {
            Some(offset) => offset,
            None => {
                return Err(Missing::ComponentsField);
            },
        };
        let state_offset: u32 = match field_offset(
            module,
            "Timberborn.BlockSystem",
            "BlockObjectState",
            "_state",
        ) {
            Some(offset) => offset,
            None => {
                return Err(Missing::StateField);
            },
        };
        let block_state_vtable: u64 = match class_vtable(
            module,
            "Timberborn.BlockSystem",
            "BlockObjectState",
        ) {
            Some(vtable) => vtable,
            None => {
                return Err(Missing::BlockObjectState);
            },
        };
        let entities: u64 = match Self::from_checker(memory, module, container) {
            Ok(entities) => entities,
            Err(missing) => {
                return Err(missing);
            },
        };
        Ok(
            Reached {
                entities,
                cache_offset,
                name_offset,
                components_offset,
                block_state_vtable,
                state_offset,
            },
        )
    }

    fn from_checker<M: Memory>(memory: &M, module: &Module, container: &Registry) -> (entities:
        Result<u64, Missing>)
        ensures
            entities == way_from_checker(memory, *module, container.entries@),
    {
        let vtable: u64 = match class_vtable(module, "Timberborn.GameOver", "GameOverChecker") {
            Some(vtable) => vtable,
            None => {
                return Err(Missing::Checker);
            },
        };
        let checker: u64 = match container.lookup(vtable) {
            Some(checker) => checker,
            None => {
                return Err(Missing::CheckerInContainer);
            },
        };
        let registry_field: u32 = match field_of(memory, module, checker, "_entityRegistry") {
            Some(offset) => offset,
            None => {
                return Err(Missing::RegistryField);
            },
        };
        let registry: u64 = match read_pointer(memory, checker, registry_field) {
            Some(registry) => registry,
            None => {
                return Err(Missing::RegistryNull);
            },
        };
        let order_field: u32 = match field_of(
            memory,
            module,
            registry,
            "_entitiesInInstantiationOrder",
        ) {
            Some(offset) => offset,
            None => {
                return Err(Missing::OrderField);
            },
        };
        match read_pointer(memory, registry, order_field) {
            Some(entities) => Ok(entities),
            None => Err(Missing::EntitiesNull),
        }
    }
}

/// The paths to the entities, with the layout of their list.
pub open spec fn paths_from(reached: Reached, size_offset: u32, items_offset: u32) -> Paths {
    Paths {
        entities: reached.entities,
        size_offset,
        items_offset,
        cache_offset: reached.cache_offset,
        name_offset: reached.name_offset,
        components_offset: reached.components_offset,
        block_state_vtable: reached.block_state_vtable,
        state_offset: reached.state_offset,
    }
}

/// The tracked buildings of one game.
pub struct Buildings {
    pub paths: Paths,
    /// Tracked buildings found so far: the address of the building's
    /// `BlockObjectState`, and which split slot it belongs to. Small -- only
    /// tracked templates go in here.
    pub watched: Vec<(u64, usize)>,
    /// How much of the list has been inspected, as a count of leading entries.
    ///
    /// Entities are appended, so ordinarily only the tail is new. A removal
    /// shifts everything after it down by one, which can slide an uninspected
    /// entity below this mark -- so a shrink of `k` rewinds it by `k`.
    /// Inspecting the same entity twice is harmless: watches are keyed by
    /// address.
    pub inspected: i32,
    /// Entity count as of the last poll, to spot growth and shrinkage.
    pub last_count: i32,
    pub finished: [bool; 6],
    pub on_arrival: [bool; 6],
    /// The combined split fires once, on whichever of the two comes second.
    pub combined_fired: bool,
}

/// The mark after the count went from `last` to `count`: what was lost is given
/// back.
pub open spec fn rewound(inspected: int, last: int, count: int) -> int {
    if count < last {
        if inspected - (last - count) < 0 {
            0
        } else {
            inspected - (last - count)
        }
    } else {
        inspected
    }
}

/// How far a tick's inspection goes from `mark`.
pub open spec fn caught_up(mark: int, count: int) -> int {
    if mark < count && mark + CHUNK < count {
        mark + CHUNK
    } else {
        count
    }
}

/// The splits that the newly finished `slots` fire on their own, leaving out
/// what was finished on arrival.
pub open spec fn own_splits(slots: Seq<usize>, on_arrival: Seq<bool>) -> Seq<Split>
    decreases slots.len(),
{
    if slots.len() == 0 {
        Seq::empty()
    } else {
        let rest = own_splits(slots.drop_last(), on_arrival);
        let slot = slots.last() as int;
        if !on_arrival[slot] && own_split(slot) is Some {
            rest.push(own_split(slot)->0)
        } else {
            rest
        }
    }
}

/// Whether the combined split is due.
pub open spec fn combined_due(finished: Seq<bool>, on_arrival: Seq<bool>, fired: bool) -> bool {
    &&& finished[SMELTER_INDEX as int] && finished[WOOD_WORKSHOP_INDEX as int]
    &&& !(on_arrival[SMELTER_INDEX as int] && on_arrival[WOOD_WORKSHOP_INDEX as int])
    &&& !fired
}

impl Buildings {
    pub open spec fn wf(self) -> bool {
        &&& forall|i: int| 0 <= i < self.watched@.len() ==> (#[trigger] self.watched@[i]).1 < TRACKED
        &&& 0 <= self.inspected < MAX_ENTITIES
        &&& 0 <= self.last_count < MAX_ENTITIES
    }

    /// Watched buildings as they are after a tick's inspection.
    pub open spec fn watched_after<M: Memory>(self, memory: &M) -> Seq<(u64, usize)> {
        let count = self.paths.entity_count(memory) as int;
        let mark = rewound(self.inspected as int, self.last_count as int, count);
        if mark < count {
            self.paths.looked_over(memory, mark, caught_up(mark, count), self.watched@)
        } else {
            self.watched@
        }
    }

    /// What a tick leads to.
    pub open spec fn polled<M: Memory>(
        self,
        memory: &M,
        after: Buildings,
        fired: Seq<Split>,
    ) -> bool {
        let count = self.paths.entity_count(memory);
        let mark = rewound(self.inspected as int, self.last_count as int, count as int);
        let (finished, newly) = self.paths.completed(
            memory,
            self.watched_after(memory),
            self.finished@,
        );
        let due = combined_due(finished, self.on_arrival@, self.combined_fired);
        &&& after.paths == self.paths
        &&& after.watched@ == self.watched_after(memory)
        &&& after.inspected == caught_up(mark, count as int)
        &&& after.last_count == count
        &&& after.finished@ == finished
        &&& after.on_arrival@ == self.on_arrival@
        &&& after.combined_fired == (self.combined_fired || due)
        &&& fired == if due {
            own_splits(newly, self.on_arrival@).push(Split::SmelterAndWoodWorkshop)
        } else {
            own_splits(newly, self.on_arrival@)
        }
    }

    /// The same buildings, with every split still owed.
    pub open spec fn owes_all(self, before: Buildings) -> bool {
        &&& self.finished@ == Seq::new(6, |i: int| false)
        &&& self.on_arrival@ == Seq::new(6, |i: int| false)
        &&& self == (Buildings { finished: self.finished, on_arrival: self.on_arrival, ..before })
    }

    /// What is said of buildings found standing part way through a run.
    pub open spec fn mid_run_note(self) -> Seq<Note> {
        if self.finished@.contains(true) {
            seq![Note::BuildingsMidRun { finished: self.finished }]
        } else {
            Seq::empty()
        }
    }

    /// Looks at entities `[from, to)` and remembers the tracked ones.
    ///
    /// The backing array is read once per call rather than per entity, and
    /// nothing here resolves a class: every offset was settled at resolve time.
    pub fn inspect_range<M: Memory>(&mut self, memory: &M, from: i32, to: i32)
        requires
            old(self).wf(),
        ensures
            final(self).wf(),
            final(self).watched@ == old(self).paths.looked_over(
                memory,
                from as int,
                to as int,
                old(self).watched@,
            ),
            *final(self) == (Buildings { watched: final(self).watched, ..*old(self) }),
    {
        let items: u64 = match read_pointer(memory, self.paths.entities, self.paths.items_offset) {
            Some(items) => items,
            None => {
                return ;
            },
        };
        let first: i32 = if from < 0 {
            0
        } else {
            from
        };
        let mut i: i32 = first;
        while i < to
            invariant
                0 <= first <= i,
                i <= to || i == first,
                self.wf(),
                *self == (Buildings { watched: self.watched, ..*old(self) }),
                self.watched@ == self.paths.inspected(
                    memory,
                    items,
                    first as int,
                    i as int,
                    old(self).watched@,
                ),
            decreases to - i,
        {
            let found = self.paths.track(memory, items, i);
            if let Some((state, slot)) = found {
                if !self.watches(state) {
                    self.watched.push((state, slot));
                }
            }
            i = i + 1;
        }
        assert(to <= first ==> self.paths.inspected(
            memory,
            items,
            first as int,
            to as int,
            old(self).watched@,
        ) == old(self).watched@);
    }

    fn watches(&self, state: u64) -> (watches: bool)
        ensures
            watches == is_watched(self.watched@, state),
    {
        let mut i: usize = 0;
        while i < self.watched.len()
            invariant
                i <= self.watched@.len(),
                forall|k: int| 0 <= k < i ==> (#[trigger] self.watched@[k]).0 != state,
            decreases self.watched@.len() - i,
        {
            if self.watched[i].0 == state {
                return true;
            }
            i = i + 1;
        }
        false
    }

    /// Reads every watched building's state. Returns the slots that just reached
    /// `Finished`.
    pub fn poll_watched<M: Memory>(&mut self, memory: &M) -> (newly: Vec<usize>)
        requires
            old(self).wf(),
        ensures
            final(self).wf(),
            (final(self).finished@, newly@) == old(self).paths.completed(
                memory,
                old(self).watched@,
                old(self).finished@,
            ),
            *final(self) == (Buildings { finished: final(self).finished, ..*old(self) }),
            forall|i: int| 0 <= i < newly@.len() ==> #[trigger] newly@[i] < TRACKED,
    {
        let mut newly: Vec<usize> = Vec::new();
        let mut i: usize = 0;
        assert(self.watched@.take(0) =~= Seq::<(u64, usize)>::empty());
        while i < self.watched.len()
            invariant
                i <= self.watched@.len(),
                self.wf(),
                *self == (Buildings { finished: self.finished, ..*old(self) }),
                (self.finished@, newly@) == self.paths.completed(
                    memory,
                    self.watched@.take(i as int),
                    old(self).finished@,
                ),
                forall|k: int| 0 <= k < newly@.len() ==> #[trigger] newly@[k] < TRACKED,
            decreases self.watched@.len() - i,
        {
            let (state, slot): (u64, usize) = self.watched[i];
            proof {
                let next = self.watched@.take(i + 1);
                assert(next.drop_last() =~= self.watched@.take(i as int));
                assert(next.last() == (state, slot));
            }
            if !self.finished[slot] && self.paths.reads_finished(memory, state) {
                self.finished[slot] = true;
                newly.push(slot);
            }
            i = i + 1;
        }
        assert(self.watched@.take(i as int) =~= self.watched@);
        newly
    }

    /// Whether the list's size still reads.
    pub fn still_valid<M: Memory>(&self, memory: &M) -> (valid: bool)
        ensures
            valid == (i32_at(memory, plus(self.paths.entities, self.paths.size_offset as u64))
                is Some),
    {
        read_i32(
            memory,
            offset_by(self.paths.entities, self.paths.size_offset as u64),
        ).is_some()
    }

    /// Bound part way through a run, so anything standing now was built during
    /// it and its split is still owed.
    pub fn arrived_mid_run(&mut self, log: &mut Vec<Note>)
        requires
            old(self).wf(),
        ensures
            final(self).wf(),
            final(self).owes_all(*old(self)),
            final(log)@ == old(log)@ + old(self).mid_run_note(),
    {
        let any = self.finished[0] || self.finished[1] || self.finished[2] || self.finished[3]
            || self.finished[4] || self.finished[5];
        proof {
            let f = self.finished@;
            if any {
                assert(f[0] || f[1] || f[2] || f[3] || f[4] || f[5]);
                assert(f.contains(true));
            } else if f.contains(true) {
                let k = f.index_of(true);
                assert(f[k]);
            }
        }
        if any {
            log.push(Note::BuildingsMidRun { finished: self.finished });
            assert(log@ =~= old(log)@ + seq![
                Note::BuildingsMidRun { finished: old(self).finished },
            ]);
        } else {
            assert(log@ =~= old(log)@ + Seq::<Note>::empty());
        }
        self.on_arrival = [false, false, false, false, false, false];
        self.finished = [false, false, false, false, false, false];
        assert(self.finished@ =~= Seq::new(6, |i: int| false));
        assert(self.on_arrival@ =~= Seq::new(6, |i: int| false));
    }

    /// Returns the splits that just completed.
    pub fn poll<M: Memory>(&mut self, memory: &M) -> (fired: Vec<Split>)
        requires
            old(self).wf(),
        ensures
            final(self).wf(),
            old(self).polled(memory, *final(self), fired@),
    {
        let count: i32 = self.paths.count(memory);

        // A removal slid part of the tail down past the mark, so give back as
        // much ground as was lost. Re-inspecting is cheap and idempotent.
        if count < self.last_count {
            let lost: i32 = self.last_count - count;
            self.inspected = if self.inspected < lost {
                0
            } else {
                self.inspected - lost
            };
        }
        self.last_count = count;

        // Catch up on anything not yet inspected, a chunk at a time so a large
        // backlog is spread over ticks instead of stalling one.
        if self.inspected < count {
            let end: i32 = if self.inspected + CHUNK < count {
                self.inspected + CHUNK
            } else {
                count
            };
            let from: i32 = self.inspected;
            self.inspect_range(memory, from, end);
            self.inspected = end;
        } else {
            self.inspected = count;
        }
        assert(self.watched@ == old(self).watched_after(memory));

        let newly = self.poll_watched(memory);
        let mut fired: Vec<Split> = Vec::new();
        let mut i: usize = 0;
        assert(newly@.take(0) =~= Seq::<usize>::empty());
        while i < newly.len()
            invariant
                i <= newly@.len(),
                forall|k: int| 0 <= k < newly@.len() ==> #[trigger] newly@[k] < TRACKED,
                fired@ == own_splits(newly@.take(i as int), self.on_arrival@),
            decreases newly@.len() - i,
        {
            let slot: usize = newly[i];
            proof {
                let next = newly@.take(i + 1);
                assert(next.drop_last() =~= newly@.take(i as int));
                assert(next.last() == slot);
            }
            if !self.on_arrival[slot] {
                if let Some(split) = split_of(slot) {
                    fired.push(split);
                }
            }
            i = i + 1;
        }
        assert(newly@.take(i as int) =~= newly@);

        // The combined split fires on the later of the two, in either order.
        let both = self.finished[SMELTER_INDEX] && self.finished[WOOD_WORKSHOP_INDEX];
        let both_on_arrival = self.on_arrival[SMELTER_INDEX] && self.on_arrival[WOOD_WORKSHOP_INDEX];
        if both && !both_on_arrival && !self.combined_fired {
            self.combined_fired = true;
            fired.push(Split::SmelterAndWoodWorkshop);
        }
        fired
    }
}

/// The opening walk over every entity in the save -- tens of thousands on a
/// long-running one -- so it goes a chunk a tick rather than stalling the
/// runtime for a second or more.
pub struct OpeningWalk {
    pub buildings: Buildings,
    pub index: i32,
    pub total: i32,
}

/// The end of the walk's chunk that starts at `index`.
pub open spec fn walk_end(index: int, total: int) -> int {
    if index + BASELINE_CHUNK < total {
        index + BASELINE_CHUNK
    } else {
        total
    }
}

impl OpeningWalk {
    pub open spec fn wf(self) -> bool {
        &&& self.buildings.wf()
        &&& 0 <= self.index <= self.total < MAX_ENTITIES
    }

    /// The walk has not looked at anything yet.
    pub open spec fn begun<M: Memory>(self, memory: &M, paths: Paths) -> bool {
        &&& self.wf()
        &&& self.index == 0
        &&& self.total == paths.entity_count(memory)
        &&& self.buildings.paths == paths
        &&& self.buildings.watched@.len() == 0
        &&& self.buildings.inspected == 0
        &&& self.buildings.last_count == 0
        &&& self.buildings.finished@ == Seq::new(6, |i: int| false)
        &&& self.buildings.on_arrival@ == Seq::new(6, |i: int| false)
        &&& !self.buildings.combined_fired
    }

    /// What looking at one more chunk leads to.
    pub open spec fn advanced<M: Memory>(self, memory: &M, after: OpeningWalk) -> bool {
        &&& after.total == self.total
        &&& after.index == walk_end(self.index as int, self.total as int)
        &&& after.buildings.watched@ == self.buildings.paths.looked_over(
            memory,
            self.index as int,
            after.index as int,
            self.buildings.watched@,
        )
        &&& after.buildings == (Buildings { watched: after.buildings.watched, ..self.buildings })
    }

    /// What the walk ends as: everything already finished is so on arrival.
    pub open spec fn ends_as<M: Memory>(self, memory: &M, buildings: Buildings) -> bool {
        &&& buildings.wf()
        &&& buildings.paths == self.buildings.paths
        &&& buildings.watched@ == self.buildings.watched@
        &&& buildings.inspected == self.total
        &&& buildings.last_count == self.total
        &&& buildings.finished@ == self.buildings.paths.completed(
            memory,
            self.buildings.watched@,
            self.buildings.finished@,
        ).0
        &&& buildings.on_arrival@ == buildings.finished@
        &&& buildings.combined_fired == self.buildings.combined_fired
    }

    /// Begins the walk.
    pub fn begin<M: Memory>(
        memory: &M,
        reached: Reached,
        size_offset: u32,
        items_offset: u32,
        log: &mut Vec<Note>,
    ) -> (walk: Self)
        ensures
            walk.begun(memory, paths_from(reached, size_offset, items_offset)),
            final(log)@ == old(log)@.push(Note::WalkStarting { total: walk.total }),
    {
        let paths = Paths {
            entities: reached.entities,
            size_offset,
            items_offset,
            cache_offset: reached.cache_offset,
            name_offset: reached.name_offset,
            components_offset: reached.components_offset,
            block_state_vtable: reached.block_state_vtable,
            state_offset: reached.state_offset,
        };
        let buildings = Buildings {
            paths,
            watched: Vec::new(),
            inspected: 0,
            last_count: 0,
            finished: [false, false, false, false, false, false],
            on_arrival: [false, false, false, false, false, false],
            combined_fired: false,
        };
        assert(buildings.finished@ =~= Seq::new(6, |i: int| false));
        assert(buildings.on_arrival@ =~= Seq::new(6, |i: int| false));
        let total: i32 = paths.count(memory);
        log.push(Note::WalkStarting { total });
        OpeningWalk { buildings, index: 0, total }
    }

    /// Looks at one chunk. Returns `false`, having looked at nothing, once there
    /// is none left.
    pub fn step<M: Memory>(&mut self, memory: &M) -> (more: bool)
        requires
            old(self).wf(),
        ensures
            final(self).wf(),
            more == (old(self).index < old(self).total),
            !more ==> *final(self) == *old(self),
            more ==> old(self).advanced(memory, *final(self)),
    {
        if self.index >= self.total {
            return false;
        }
        let end: i32 = if self.index + BASELINE_CHUNK < self.total {
            self.index + BASELINE_CHUNK
        } else {
            self.total
        };
        let from: i32 = self.index;
        self.buildings.inspect_range(memory, from, end);
        self.index = end;
        true
    }

    /// Takes the baseline: anything already finished when we arrived is not a
    /// split.
    pub fn finish<M: Memory>(self, memory: &M, log: &mut Vec<Note>) -> (buildings: Buildings)
        requires
            self.wf(),
        ensures
            self.ends_as(memory, buildings),
            final(log)@ == old(log)@.push(
                Note::WatchingEntities {
                    total: self.total,
                    watched: self.buildings.watched@.len() as usize,
                    finished: buildings.finished,
                },
            ),
    {
        let total: i32 = self.total;
        let mut buildings = self.buildings;
        buildings.inspected = total;
        buildings.last_count = total;
        buildings.poll_watched(memory);
        buildings.on_arrival = buildings.finished;
        log.push(
            Note::WatchingEntities {
                total,
                watched: buildings.watched.len(),
                finished: buildings.finished,
            },
        );
        buildings
    }
}

/// What reading the watched buildings comes to: a slot is finished afterwards
/// iff it was before or some building watched for it now is, and the new ones
/// are exactly those that changed, each once.
pub proof fn reading_the_watched<M: Memory>(
    paths: Paths,
    memory: &M,
    watched: Seq<(u64, usize)>,
    finished: Seq<bool>,
)
    requires
        finished.len() == TRACKED,
        forall|i: int| 0 <= i < watched.len() ==> (#[trigger] watched[i]).1 < TRACKED,
    ensures
        ({
            let (done, newly) = paths.completed(memory, watched, finished);
            &&& done.len() == TRACKED
            &&& forall|slot: int|
                0 <= slot < TRACKED ==> (#[trigger] done[slot] <==> finished[slot] || exists|i: int|
                    0 <= i < watched.len() && (#[trigger] watched[i]).1 == slot
                        && paths.is_finished(memory, watched[i].0))
            &&& newly.no_duplicates()
            &&& forall|slot: usize| #[trigger]
                newly.contains(slot) <==> slot < TRACKED && done[slot as int]
                    && !finished[slot as int]
        }),
    decreases watched.len(),
{
    if watched.len() > 0 {
        let rest = watched.drop_last();
        assert forall|i: int| 0 <= i < rest.len() implies (#[trigger] rest[i]).1 < TRACKED by {
            assert(rest[i] == watched[i]);
        }
        reading_the_watched(paths, memory, rest, finished);
        let (before, some) = paths.completed(memory, rest, finished);
        let (done, newly) = paths.completed(memory, watched, finished);
        let (state, slot) = watched.last();
        assert(watched[watched.len() - 1] == (state, slot));
        assert forall|s: int| 0 <= s < TRACKED implies (#[trigger] done[s] <==> finished[s]
            || exists|i: int|
            0 <= i < watched.len() && (#[trigger] watched[i]).1 == s && paths.is_finished(
                memory,
                watched[i].0,
            )) by {
            assert(before[s] <==> finished[s] || exists|i: int|
                0 <= i < rest.len() && (#[trigger] rest[i]).1 == s && paths.is_finished(
                    memory,
                    rest[i].0,
                ));
            if before[s] && !finished[s] {
                let i = choose|i: int|
                    0 <= i < rest.len() && (#[trigger] rest[i]).1 == s && paths.is_finished(
                        memory,
                        rest[i].0,
                    );
                assert(watched[i] == rest[i]);
            }
            if exists|i: int|
                0 <= i < watched.len() && (#[trigger] watched[i]).1 == s && paths.is_finished(
                    memory,
                    watched[i].0,
                ) {
                let i = choose|i: int|
                    0 <= i < watched.len() && (#[trigger] watched[i]).1 == s && paths.is_finished(
                        memory,
                        watched[i].0,
                    );
                if i < rest.len() {
                    assert(rest[i] == watched[i]);
                }
            }
        }
        if !before[slot as int] && paths.is_finished(memory, state) {
            assert(newly == some.push(slot));
            assert(!some.contains(slot));
            assert forall|x: usize| #[trigger] newly.contains(x) <==> x < TRACKED && done[x as int]
                && !finished[x as int] by {
                assert(some.contains(x) <==> x < TRACKED && before[x as int]
                    && !finished[x as int]);
                if newly.contains(x) {
                    let k = newly.index_of(x);
                    if k < some.len() {
                        assert(some[k] == x);
                    }
                }
                if some.contains(x) {
                    assert(newly[some.index_of(x)] == x);
                }
                if x == slot {
                    assert(newly[some.len() as int] == x);
                }
            }
        }
    }
}

/// The splits a tick fires are owed, and owed once: each single-building split
/// is that of a slot that was not finished and now is, and that nothing on
/// arrival had finished; the combined one comes with the later of its two
/// buildings, in either order, unless both stood on arrival or it has fired.
/// No split comes twice, and what is finished stays finished.
pub proof fn splits_are_owed_once<M: Memory>(
    buildings: Buildings,
    memory: &M,
    after: Buildings,
    fired: Seq<Split>,
)
    requires
        buildings.wf(),
        after.wf(),
        buildings.polled(memory, after, fired),
    ensures
        fired.no_duplicates(),
        forall|slot: int|
            0 <= slot < 4 ==> (fired.contains(own_split(slot)->0) <==> !buildings.finished@[slot]
                && #[trigger] after.finished@[slot] && !buildings.on_arrival@[slot]),
        fired.contains(Split::SmelterAndWoodWorkshop) <==> !buildings.combined_fired
            && after.finished@[SMELTER_INDEX as int] && after.finished@[WOOD_WORKSHOP_INDEX as int]
            && !(buildings.on_arrival@[SMELTER_INDEX as int]
            && buildings.on_arrival@[WOOD_WORKSHOP_INDEX as int]),
        fired.contains(Split::SmelterAndWoodWorkshop) ==> after.combined_fired,
        buildings.combined_fired ==> after.combined_fired,
        forall|slot: int|
            0 <= slot < TRACKED && buildings.finished@[slot] ==> #[trigger] after.finished@[slot],
{
    let watched = after.watched@;
    assert forall|i: int| 0 <= i < watched.len() implies (#[trigger] watched[i]).1 < TRACKED by {}
    reading_the_watched(buildings.paths, memory, watched, buildings.finished@);
    let (finished, newly) = buildings.paths.completed(memory, watched, buildings.finished@);
    let on_arrival = buildings.on_arrival@;
    lemma_own_splits(newly, on_arrival);
    let own = own_splits(newly, on_arrival);
    let due = combined_due(finished, on_arrival, buildings.combined_fired);
    assert forall|split: Split| #[trigger] fired.contains(split) <==> own.contains(split) || (due
        && split == Split::SmelterAndWoodWorkshop) by {
        if own.contains(split) {
            assert(fired[own.index_of(split)] == split);
        }
        if due {
            assert(fired[own.len() as int] == Split::SmelterAndWoodWorkshop);
        }
        if fired.contains(split) {
            let k = fired.index_of(split);
            if k < own.len() {
                assert(own[k] == split);
            }
        }
    }
    assert forall|slot: int| 0 <= slot < 4 implies (fired.contains(own_split(slot)->0)
        <==> !buildings.finished@[slot] && #[trigger] after.finished@[slot]
        && !buildings.on_arrival@[slot]) by {
        assert(newly.contains(slot as usize) <==> finished[slot] && !buildings.finished@[slot]);
        assert(own.contains(own_split(slot)->0) <==> newly.contains(slot as usize)
            && !on_arrival[slot]);
    }
}

proof fn lemma_own_splits(slots: Seq<usize>, on_arrival: Seq<bool>)
    requires
        slots.no_duplicates(),
        on_arrival.len() == TRACKED,
    ensures
        own_splits(slots, on_arrival).no_duplicates(),
        forall|slot: int|
            0 <= slot < 4 ==> (own_splits(slots, on_arrival).contains(
                (#[trigger] own_split(slot))->0,
            ) <==> slots.contains(slot as usize) && !on_arrival[slot]),
        !own_splits(slots, on_arrival).contains(Split::SmelterAndWoodWorkshop),
    decreases slots.len(),
{
    if slots.len() > 0 {
        let rest = slots.drop_last();
        lemma_own_splits(rest, on_arrival);
        let before = own_splits(rest, on_arrival);
        let after = own_splits(slots, on_arrival);
        let last = slots.last() as int;
        assert(slots[slots.len() - 1] == slots.last());
        assert(!rest.contains(slots.last())) by {
            if rest.contains(slots.last()) {
                let k = rest.index_of(slots.last());
                assert(slots[k] == slots[slots.len() - 1]);
            }
        }
        let adds = !on_arrival[last] && own_split(last) is Some;
        if adds {
            let split = own_split(last)->0;
            assert(0 <= last < 4);
            assert(!before.contains(split));
            assert(after == before.push(split));
            assert(after[before.len() as int] == split);
        }
        assert forall|slot: int| 0 <= slot < 4 implies (after.contains(
            (#[trigger] own_split(slot))->0,
        ) <==> slots.contains(slot as usize) && !on_arrival[slot]) by {
            let split = own_split(slot)->0;
            assert(before.contains(split) <==> rest.contains(slot as usize) && !on_arrival[slot]);
            if rest.contains(slot as usize) {
                assert(slots[rest.index_of(slot as usize)] == slot as usize);
            }
            if slots.contains(slot as usize) {
                let k = slots.index_of(slot as usize);
                if k < rest.len() {
                    assert(rest[k] == slot as usize);
                }
            }
            if before.contains(split) {
                assert(after[before.index_of(split)] == split);
            }
            if after.contains(split) {
                let k = after.index_of(split);
                if k < before.len() {
                    assert(before[k] == split);
                } else {
                    assert(adds);
                    assert(own_split(last)->0 == split);
                    assert(last == slot);
                }
            }
        }
    }
}

/// A game's buildings watched over some ticks: what memory held at each, what
/// was known before and after, and what each fired.
pub open spec fn are_watched<M: Memory>(
    memories: Seq<M>,
    known: Seq<Buildings>,
    fired: Seq<Seq<Split>>,
) -> bool {
    &&& known.len() == memories.len() + 1
    &&& fired.len() == memories.len()
    &&& forall|i: int| 0 <= i < known.len() ==> (#[trigger] known[i]).wf()
    &&& forall|i: int, j: int|
        0 <= i < memories.len() && j == i + 1 ==> (#[trigger] known[i]).polled(
            &memories[i],
            #[trigger] known[j],
            fired[i],
        )
}

/// No split fires in two ticks of one game, whatever happens in between: not
/// when a building is torn down and built again, nor when another of its kind is
/// finished.
pub proof fn a_split_fires_in_one_tick_only<M: Memory>(
    memories: Seq<M>,
    known: Seq<Buildings>,
    fired: Seq<Seq<Split>>,
    i: int,
    j: int,
    split: Split,
)
    requires
        are_watched(memories, known, fired),
        0 <= i < j < fired.len(),
        fired[i].contains(split),
    ensures
        !fired[j].contains(split),
{
    assert(known[i].polled(&memories[i], known[i + 1], fired[i]));
    assert(known[j].polled(&memories[j], known[j + 1], fired[j]));
    splits_are_owed_once(known[i], &memories[i], known[i + 1], fired[i]);
    splits_are_owed_once(known[j], &memories[j], known[j + 1], fired[j]);
    lemma_stays(memories, known, fired, i + 1, j);
    let slot: int = match split {
        Split::Forester => 0,
        Split::GearWorkshop => 1,
        Split::TappersShack => 2,
        Split::AdvancedScience => 3,
        Split::SmelterAndWoodWorkshop => 4,
    };
    if slot < 4 {
        assert(own_split(slot) == Some(split));
        lemma_owed(known[i], &memories[i], known[i + 1], fired[i], slot);
        assert(known[j].finished@[slot]);
        if fired[j].contains(split) {
            lemma_owed(known[j], &memories[j], known[j + 1], fired[j], slot);
        }
    } else {
        assert(split == Split::SmelterAndWoodWorkshop);
        assert(known[i + 1].combined_fired);
        assert(known[j].combined_fired);
    }
}

/// A single-building split fires only where its slot becomes finished.
proof fn lemma_owed<M: Memory>(
    buildings: Buildings,
    memory: &M,
    after: Buildings,
    fired: Seq<Split>,
    slot: int,
)
    requires
        buildings.wf(),
        after.wf(),
        buildings.polled(memory, after, fired),
        0 <= slot < 4,
        fired.contains(own_split(slot)->0),
    ensures
        !buildings.finished@[slot],
        after.finished@[slot],
{
    splits_are_owed_once(buildings, memory, after, fired);
    let done = after.finished@[slot];
    let owed = fired.contains(own_split(slot)->0);
    assert(owed ==> done);
    assert(owed ==> !buildings.finished@[slot]);
}

/// What is finished, and what has fired, stays so.
proof fn lemma_stays<M: Memory>(
    memories: Seq<M>,
    known: Seq<Buildings>,
    fired: Seq<Seq<Split>>,
    i: int,
    j: int,
)
    requires
        are_watched(memories, known, fired),
        0 <= i <= j < known.len(),
    ensures
        known[i].combined_fired ==> known[j].combined_fired,
        forall|slot: int|
            0 <= slot < TRACKED && known[i].finished@[slot] ==> #[trigger] known[j].finished@[slot],
    decreases j - i,
{
    if i < j {
        lemma_stays(memories, known, fired, i, j - 1);
        assert(known[j - 1].polled(&memories[j - 1], known[j], fired[j - 1]));
        splits_are_owed_once(known[j - 1], &memories[j - 1], known[j], fired[j - 1]);
        assert forall|slot: int| 0 <= slot < TRACKED && known[i].finished@[slot] implies
            #[trigger] known[j].finished@[slot] by {
            assert(known[j - 1].finished@[slot]);
        }
    }
}

/// Whether both buildings of the combined split are finished.
pub open spec fn are_both(buildings: Buildings) -> bool {
    buildings.finished@[SMELTER_INDEX as int] && buildings.finished@[WOOD_WORKSHOP_INDEX as int]
}

/// From the opening walk on, each split fires once and on time. That of one
/// building fires on the very poll that first sees its building finished, and
/// that of the Smelter and the Wood Workshop on the first that sees both, in
/// whichever order they were built; nothing that stood on arrival fires at all.
/// Where the run was already under way, everything is still owed.
pub proof fn each_split_fires_when_first_seen<M: Memory>(
    walk: OpeningWalk,
    memory: &M,
    found: Buildings,
    memories: Seq<M>,
    known: Seq<Buildings>,
    fired: Seq<Seq<Split>>,
    i: int,
)
    requires
        walk.ends_as(memory, found),
        !walk.buildings.combined_fired,
        are_watched(memories, known, fired),
        known[0] == found || known[0].owes_all(found),
        0 <= i < fired.len(),
    ensures
        forall|slot: int|
            0 <= slot < 4 ==> (fired[i].contains((#[trigger] own_split(slot))->0)
                <==> known[i + 1].finished@[slot] && !known[i].finished@[slot]),
        fired[i].contains(Split::SmelterAndWoodWorkshop) <==> are_both(known[i + 1]) && !are_both(
            known[i],
        ),
{
    assert(known[i].polled(&memories[i], known[i + 1], fired[i]));
    splits_are_owed_once(known[i], &memories[i], known[i + 1], fired[i]);
    lemma_stays(memories, known, fired, 0, i);
    lemma_arrival(memories, known, fired, i);
    assert forall|slot: int| 0 <= slot < 4 implies (fired[i].contains(
        (#[trigger] own_split(slot))->0,
    ) <==> known[i + 1].finished@[slot] && !known[i].finished@[slot]) by {
        let done = known[i + 1].finished@[slot];
        let stood = known[0].finished@[slot];
        assert(stood ==> known[i].finished@[slot]);
        assert(known[i].on_arrival@[slot] == stood);
    }
    let smelter = known[0].finished@[SMELTER_INDEX as int];
    let workshop = known[0].finished@[WOOD_WORKSHOP_INDEX as int];
    assert(smelter ==> known[i].finished@[SMELTER_INDEX as int]);
    assert(workshop ==> known[i].finished@[WOOD_WORKSHOP_INDEX as int]);
}

/// What stood on arrival stays what it was, and the combined split has fired
/// where both its buildings are finished and did not both stand on arrival.
proof fn lemma_arrival<M: Memory>(
    memories: Seq<M>,
    known: Seq<Buildings>,
    fired: Seq<Seq<Split>>,
    i: int,
)
    requires
        are_watched(memories, known, fired),
        known[0].on_arrival@ == known[0].finished@,
        !known[0].combined_fired,
        0 <= i < known.len(),
    ensures
        known[i].on_arrival@ == known[0].finished@,
        known[i].combined_fired == (are_both(known[i]) && !are_both(known[0])),
    decreases i,
{
    if i > 0 {
        lemma_arrival(memories, known, fired, i - 1);
        assert(known[i - 1].polled(&memories[i - 1], known[i], fired[i - 1]));
        splits_are_owed_once(known[i - 1], &memories[i - 1], known[i], fired[i - 1]);
        let before = (
            known[i - 1].finished@[SMELTER_INDEX as int],
            known[i - 1].finished@[WOOD_WORKSHOP_INDEX as int],
        );
        assert(before.0 ==> known[i].finished@[SMELTER_INDEX as int]);
        assert(before.1 ==> known[i].finished@[WOOD_WORKSHOP_INDEX as int]);
    }
}

} // verus!
