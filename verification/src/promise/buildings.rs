//! The tracked buildings: which they are, and that none of them is missed.
use vstd::prelude::*;

use crate::buildings::{
    also_watching, caught_up, component_from, element, is_watched, names_slot, reading_the_watched,
    rewound, slot_from, Buildings, OpeningWalk, Paths, Split,
};
use crate::collections::{is_segment, string_units};
use crate::memory::{field_pointer, plus, pointer_at, Memory};
use crate::promise::reading::{
    has_number, has_word, is_honest, top, what_is_read_is_there, what_is_there_is_read,
};
use crate::promise::timer::what_comes_due_fires;
use crate::text::{utf16, utf16_of};

verus! {

proof fn lemma_utf16_first(text: Seq<char>)
    requires
        text.len() > 0,
        (text[0] as u32) < 0x1_0000,
    ensures
        utf16(text).len() > 0,
        utf16(text)[0] == text[0] as u32 as u16,
    decreases text.len(),
{
    let init = text.drop_last();
    if text.len() == 1 {
        assert(utf16(init) =~= Seq::empty());
        assert(utf16(text) =~= utf16_of(text[0]));
    } else {
        assert(init[0] == text[0]);
        lemma_utf16_first(init);
        assert(utf16(text)[0] == utf16(init)[0]);
    }
}

/// A template name that starts otherwise is another.
proof fn lemma_first_tells<M: Memory>(memory: &M, name: u64, one: Seq<char>, other: Seq<char>)
    requires
        one.len() > 0,
        other.len() > 0,
        (one[0] as u32) < 0x80,
        (other[0] as u32) < 0x80,
        one[0] as u32 != other[0] as u32,
        is_segment(memory, name, one),
    ensures
        !is_segment(memory, name, other),
{
    lemma_utf16_first(one);
    lemma_utf16_first(other);
    let units = string_units(memory, name)->0;
    assert(units.take(utf16(one).len() as int)[0] == units[0]);
    if is_segment(memory, name, other) {
        assert(units.take(utf16(other).len() as int)[0] == units[0]);
    }
}

/// Whether the name at `name` is one of two template names, alone or with more
/// behind a dot.
pub open spec fn is_named<M: Memory>(
    memory: &M,
    name: u64,
    folktails: Seq<char>,
    iron_teeth: Seq<char>,
) -> bool {
    is_segment(memory, name, folktails) || is_segment(memory, name, iron_teeth)
}

proof fn lemma_apart<M: Memory>(
    memory: &M,
    name: u64,
    a: Seq<char>,
    b: Seq<char>,
    c: Seq<char>,
    d: Seq<char>,
)
    requires
        a.len() > 0 && b.len() > 0 && c.len() > 0 && d.len() > 0,
        (a[0] as u32) < 0x80 && (b[0] as u32) < 0x80,
        (c[0] as u32) < 0x80 && (d[0] as u32) < 0x80,
        a[0] as u32 != c[0] as u32 && a[0] as u32 != d[0] as u32,
        b[0] as u32 != c[0] as u32 && b[0] as u32 != d[0] as u32,
    ensures
        !(is_named(memory, name, a, b) && is_named(memory, name, c, d)),
{
    if is_segment(memory, name, a) {
        lemma_first_tells(memory, name, a, c);
        lemma_first_tells(memory, name, a, d);
    }
    if is_segment(memory, name, b) {
        lemma_first_tells(memory, name, b, c);
        lemma_first_tells(memory, name, b, d);
    }
}

/// Each building's template has its slot, whichever faction's it is, and no other
/// template has any.
pub proof fn each_template_has_its_slot<M: Memory>(memory: &M, name: u64)
    ensures
        slot_from(memory, name, 0) == Some(0usize) <==> is_named(
            memory,
            name,
            "Forester.Folktails"@,
            "Forester.IronTeeth"@,
        ),
        slot_from(memory, name, 0) == Some(1usize) <==> is_named(
            memory,
            name,
            "GearWorkshop.Folktails"@,
            "GearWorkshop.IronTeeth"@,
        ),
        slot_from(memory, name, 0) == Some(2usize) <==> is_named(
            memory,
            name,
            "TappersShack.Folktails"@,
            "TappersShack.IronTeeth"@,
        ),
        slot_from(memory, name, 0) == Some(3usize) <==> is_named(
            memory,
            name,
            "Observatory.Folktails"@,
            "Numbercruncher.IronTeeth"@,
        ),
        slot_from(memory, name, 0) == Some(4usize) <==> is_named(
            memory,
            name,
            "Smelter.Folktails"@,
            "Smelter.IronTeeth"@,
        ),
        slot_from(memory, name, 0) == Some(5usize) <==> is_named(
            memory,
            name,
            "WoodWorkshop.Folktails"@,
            "WoodWorkshop.IronTeeth"@,
        ),
        slot_from(memory, name, 0) matches Some(slot) ==> slot < 6,
{
    reveal_strlit("Forester.Folktails");
    reveal_strlit("Forester.IronTeeth");
    reveal_strlit("GearWorkshop.Folktails");
    reveal_strlit("GearWorkshop.IronTeeth");
    reveal_strlit("TappersShack.Folktails");
    reveal_strlit("TappersShack.IronTeeth");
    reveal_strlit("Observatory.Folktails");
    reveal_strlit("Numbercruncher.IronTeeth");
    reveal_strlit("Smelter.Folktails");
    reveal_strlit("Smelter.IronTeeth");
    reveal_strlit("WoodWorkshop.Folktails");
    reveal_strlit("WoodWorkshop.IronTeeth");
    let f = ("Forester.Folktails"@, "Forester.IronTeeth"@);
    let g = ("GearWorkshop.Folktails"@, "GearWorkshop.IronTeeth"@);
    let t = ("TappersShack.Folktails"@, "TappersShack.IronTeeth"@);
    let o = ("Observatory.Folktails"@, "Numbercruncher.IronTeeth"@);
    let s = ("Smelter.Folktails"@, "Smelter.IronTeeth"@);
    let w = ("WoodWorkshop.Folktails"@, "WoodWorkshop.IronTeeth"@);
    lemma_apart(memory, name, f.0, f.1, g.0, g.1);
    lemma_apart(memory, name, f.0, f.1, t.0, t.1);
    lemma_apart(memory, name, f.0, f.1, o.0, o.1);
    lemma_apart(memory, name, f.0, f.1, s.0, s.1);
    lemma_apart(memory, name, f.0, f.1, w.0, w.1);
    lemma_apart(memory, name, g.0, g.1, t.0, t.1);
    lemma_apart(memory, name, g.0, g.1, o.0, o.1);
    lemma_apart(memory, name, g.0, g.1, s.0, s.1);
    lemma_apart(memory, name, g.0, g.1, w.0, w.1);
    lemma_apart(memory, name, t.0, t.1, o.0, o.1);
    lemma_apart(memory, name, t.0, t.1, s.0, s.1);
    lemma_apart(memory, name, t.0, t.1, w.0, w.1);
    lemma_apart(memory, name, o.0, o.1, s.0, s.1);
    lemma_apart(memory, name, o.0, o.1, w.0, w.1);
    lemma_apart(memory, name, s.0, s.1, w.0, w.1);
    assert(names_slot(memory, name, 0) == is_named(memory, name, f.0, f.1));
    assert(names_slot(memory, name, 1) == is_named(memory, name, g.0, g.1));
    assert(names_slot(memory, name, 2) == is_named(memory, name, t.0, t.1));
    assert(names_slot(memory, name, 3) == is_named(memory, name, o.0, o.1));
    assert(names_slot(memory, name, 4) == is_named(memory, name, s.0, s.1));
    assert(names_slot(memory, name, 5) == is_named(memory, name, w.0, w.1));
    assert(slot_from(memory, name, 6) is None);
    assert(slot_from(memory, name, 5) == if names_slot(memory, name, 5) {
        Some(5usize)
    } else {
        None
    });
    assert(slot_from(memory, name, 4) == if names_slot(memory, name, 4) {
        Some(4usize)
    } else {
        slot_from(memory, name, 5)
    });
    assert(slot_from(memory, name, 3) == if names_slot(memory, name, 3) {
        Some(3usize)
    } else {
        slot_from(memory, name, 4)
    });
    assert(slot_from(memory, name, 2) == if names_slot(memory, name, 2) {
        Some(2usize)
    } else {
        slot_from(memory, name, 3)
    });
    assert(slot_from(memory, name, 1) == if names_slot(memory, name, 1) {
        Some(1usize)
    } else {
        slot_from(memory, name, 2)
    });
}

/// The address of element `i` of an array at `items`.
pub open spec fn place(items: u64, i: int) -> int {
    items + 0x20 + 8 * i
}

/// Whether component `c` of the list at `items` is a building's state, and none
/// in front of it is.
pub open spec fn is_first_state<M: Memory>(
    paths: Paths,
    memory: &M,
    items: u64,
    c: int,
    state: u64,
) -> bool {
    &&& state != 0
    &&& has_word(memory, place(items, c), state)
    &&& has_word(memory, state as int, paths.block_state_vtable)
    &&& forall|k: int, component: u64|
        0 <= k < c && component != 0 && #[trigger] has_word(memory, place(items, k), component)
            ==> !has_word(memory, component as int, paths.block_state_vtable)
}

/// Whether the entity at `entity` is a building whose name is at `name` and whose
/// state is at `state`: its cache holds the name and the components, and its
/// state is the first of its kind among them.
pub open spec fn is_building<M: Memory>(
    paths: Paths,
    memory: &M,
    entity: u64,
    cache: u64,
    name: u64,
    components: u64,
    size: i32,
    items: u64,
    c: int,
    state: u64,
) -> bool {
    &&& entity != 0 && cache != 0 && name != 0 && components != 0 && items != 0
    &&& paths.block_state_vtable != 0
    &&& has_word(memory, entity + paths.cache_offset, cache)
    &&& has_word(memory, cache + paths.name_offset, name)
    &&& has_word(memory, cache + paths.components_offset, components)
    &&& has_number(memory, components + paths.size_offset, size)
    &&& has_word(memory, components + paths.items_offset, items)
    &&& 0 <= c < size && c < 256 && place(items, c) < top()
    &&& is_first_state(paths, memory, items, c, state)
}

proof fn lemma_component<M: Memory>(
    paths: Paths,
    memory: &M,
    items: u64,
    i: int,
    n: int,
    c: int,
    state: u64,
)
    requires
        is_honest(memory),
        paths.block_state_vtable != 0,
        0 <= i <= c < n,
        place(items, c) < top(),
        is_first_state(paths, memory, items, c, state),
    ensures
        component_from(memory, paths.block_state_vtable, items, i, n) == Some(state),
    decreases c - i,
{
    assert(element(items, i) as int == place(items, i));
    if i == c {
        what_is_there_is_read(memory, place(items, c), state, 0, 0);
        what_is_there_is_read(memory, state as int, paths.block_state_vtable, 0, 0);
    } else {
        what_is_read_is_there(memory, element(items, i));
        if let Some(component) = pointer_at(memory, element(items, i)) {
            assert(has_word(memory, place(items, i), component));
            what_is_read_is_there(memory, component);
        }
        lemma_component(paths, memory, items, i + 1, n, c, state);
    }
}

/// An entity with a tracked template's name and a state among its components is
/// tracked, by that state and in that template's slot.
pub proof fn a_building_is_tracked<M: Memory>(
    paths: Paths,
    memory: &M,
    list: u64,
    i: int,
    entity: u64,
    cache: u64,
    name: u64,
    components: u64,
    size: i32,
    items: u64,
    c: int,
    state: u64,
)
    requires
        is_honest(memory),
        0 <= i,
        place(list, i) < top(),
        has_word(memory, place(list, i), entity),
        is_building(
            paths,
            memory,
            entity,
            cache,
            name,
            components,
            size,
            items,
            c,
            state,
        ),
    ensures
        paths.traced(memory, list, i) == match slot_from(memory, name, 0) {
            Some(slot) => Some((state, slot)),
            None => None,
        },
{
    assert(element(list, i) as int == place(list, i));
    what_is_there_is_read(memory, place(list, i), entity, 0, 0);
    what_is_there_is_read(memory, entity + paths.cache_offset, cache, 0, 0);
    what_is_there_is_read(memory, cache + paths.name_offset, name, 0, 0);
    what_is_there_is_read(memory, cache + paths.components_offset, components, 0, 0);
    what_is_there_is_read(memory, components + paths.size_offset, 0, size, 0);
    what_is_there_is_read(memory, components + paths.items_offset, items, 0, 0);
    let n = if size < 256 {
        size as int
    } else {
        256
    };
    lemma_component(paths, memory, items, 0, n, c, state);
}

/// Whether memory shows a list of these entities, each tracked as `building` says.
pub open spec fn shows_list<M: Memory>(
    paths: Paths,
    memory: &M,
    list: Seq<u64>,
    building: spec_fn(u64) -> Option<(u64, usize)>,
) -> bool {
    &&& list.len() < 500_000
    &&& has_number(memory, paths.entities + paths.size_offset, list.len() as i32)
    &&& exists|items: u64|
        items != 0 && #[trigger] has_word(
            memory,
            paths.entities + paths.items_offset,
            items,
        ) && shows_items(paths, memory, items, list, building)
}

/// Whether each element of the array at `items` is tracked as the list has it.
pub open spec fn shows_items<M: Memory>(
    paths: Paths,
    memory: &M,
    items: u64,
    list: Seq<u64>,
    building: spec_fn(u64) -> Option<(u64, usize)>,
) -> bool {
    forall|k: int|
        0 <= k < list.len() ==> #[trigger] paths.traced(memory, items, k) == building(list[k])
}

/// Whether a state always belongs to one and the same slot.
pub open spec fn is_steady(building: spec_fn(u64) -> Option<(u64, usize)>) -> bool {
    forall|a: u64, b: u64|
        (#[trigger] building(a)) is Some && (#[trigger] building(b)) is Some && (building(a)->0).0
            == (building(b)->0).0 ==> building(a) == building(b)
}

/// Whether all that is watched is watched in the slot it belongs to.
pub open spec fn is_consistent(
    watched: Seq<(u64, usize)>,
    building: spec_fn(u64) -> Option<(u64, usize)>,
) -> bool {
    forall|i: int, entity: u64|
        0 <= i < watched.len() && (#[trigger] building(entity)) is Some && (building(entity)->0).0
            == (#[trigger] watched[i]).0 ==> watched[i] == building(entity)->0
}

/// Whether every tracked building among the first `n` of the list is watched.
pub open spec fn is_covered(
    watched: Seq<(u64, usize)>,
    list: Seq<u64>,
    n: int,
    building: spec_fn(u64) -> Option<(u64, usize)>,
) -> bool {
    forall|k: int|
        0 <= k < n && k < list.len() && building(#[trigger] list[k]) is Some ==> watched.contains(
            building(list[k])->0,
        )
}

proof fn lemma_inspected<M: Memory>(
    paths: Paths,
    memory: &M,
    items: u64,
    from: int,
    to: int,
    watched: Seq<(u64, usize)>,
    list: Seq<u64>,
    building: spec_fn(u64) -> Option<(u64, usize)>,
)
    requires
        0 <= from <= to <= list.len(),
        shows_items(paths, memory, items, list, building),
        is_steady(building),
        is_consistent(watched, building),
        is_covered(watched, list, from, building),
    ensures
        ({
            let after = paths.inspected(memory, items, from, to, watched);
            &&& is_consistent(after, building)
            &&& is_covered(after, list, to, building)
        }),
    decreases to - from,
{
    if from < to {
        lemma_inspected(paths, memory, items, from, to - 1, watched, list, building);
        let before = paths.inspected(memory, items, from, to - 1, watched);
        let found = paths.traced(memory, items, to - 1);
        let after = also_watching(before, found);
        assert(found == building(list[to - 1]));
        assert(forall|entry: (u64, usize)| before.contains(entry) ==> after.contains(entry)) by {
            assert forall|entry: (u64, usize)| before.contains(entry) implies after.contains(
                entry,
            ) by {
                let k = before.index_of(entry);
                assert(after[k] == entry);
            }
        }
        if let Some((state, slot)) = found {
            if is_watched(before, state) {
                let i = choose|i: int| 0 <= i < before.len() && (#[trigger] before[i]).0 == state;
                assert(before[i] == building(list[to - 1])->0);
                assert(after.contains((state, slot)));
            } else {
                assert(after[before.len() as int] == (state, slot));
            }
            assert forall|i: int, entity: u64|
                0 <= i < after.len() && (#[trigger] building(entity)) is Some && (
                building(entity)->0).0 == (#[trigger] after[i]).0 implies after[i]
                == building(entity)->0 by {
                if i < before.len() {
                    assert(before[i] == after[i]);
                } else {
                    assert(building(list[to - 1]) == building(entity));
                }
            }
        }
        assert forall|k: int|
            0 <= k < to && k < list.len() && building(#[trigger] list[k]) is Some implies after.contains(
            building(list[k])->0,
        ) by {
            if k < to - 1 {
                assert(before.contains(building(list[k])->0));
            }
        }
    }
}

/// Whether one list came of another by entities appended at its end.
pub open spec fn grew(before: Seq<u64>, after: Seq<u64>) -> bool {
    before.len() <= after.len() && forall|k: int|
        0 <= k < before.len() ==> #[trigger] before[k] == after[k]
}

/// Whether one list came of another by entities taken out of it, from anywhere.
pub open spec fn shrank(before: Seq<u64>, after: Seq<u64>) -> bool {
    exists|kept: Seq<int>| #[trigger] is_kept(before, after, kept)
}

/// The same, with the places that what is left had.
pub open spec fn is_kept(before: Seq<u64>, after: Seq<u64>, kept: Seq<int>) -> bool {
    &&& kept.len() == after.len()
    &&& forall|k: int|
        0 <= k < kept.len() ==> 0 <= #[trigger] kept[k] < before.len() && after[k]
            == before[kept[k]]
    &&& forall|k: int, l: int| 0 <= k < l < kept.len() ==> #[trigger] kept[k] < #[trigger] kept[l]
}

/// What is left has moved down by no more than was taken out.
proof fn lemma_kept(before: Seq<u64>, after: Seq<u64>, kept: Seq<int>, k: int)
    requires
        is_kept(before, after, kept),
        0 <= k < after.len(),
    ensures
        after.len() - k <= before.len() - kept[k],
    decreases after.len() - k,
{
    if k + 1 < after.len() {
        lemma_kept(before, after, kept, k + 1);
        assert(kept[k] < kept[k + 1]);
    } else {
        assert(kept[k] < before.len());
    }
}

/// Whether the buildings known have kept up with a list as far as their mark,
/// which is inside it.
pub open spec fn keeps_up(
    buildings: Buildings,
    list: Seq<u64>,
    building: spec_fn(u64) -> Option<(u64, usize)>,
) -> bool {
    &&& buildings.last_count == list.len()
    &&& 0 <= buildings.inspected <= list.len()
    &&& is_consistent(buildings.watched@, building)
    &&& is_covered(buildings.watched@, list, buildings.inspected as int, building)
}

proof fn lemma_looked_over<M: Memory>(
    paths: Paths,
    memory: &M,
    from: int,
    to: int,
    watched: Seq<(u64, usize)>,
    list: Seq<u64>,
    building: spec_fn(u64) -> Option<(u64, usize)>,
)
    requires
        0 <= from <= to <= list.len(),
        shows_list(paths, memory, list, building),
        is_steady(building),
        is_consistent(watched, building),
        is_covered(watched, list, from, building),
    ensures
        ({
            let after = paths.looked_over(memory, from, to, watched);
            &&& is_consistent(after, building)
            &&& is_covered(after, list, to, building)
        }),
{
    let items = choose|items: u64|
        items != 0 && #[trigger] has_word(
            memory,
            paths.entities + paths.items_offset,
            items,
        ) && shows_items(paths, memory, items, list, building);
    what_is_there_is_read(memory, paths.entities + paths.items_offset, items, 0, 0);
    lemma_inspected(paths, memory, items, from, to, watched, list, building);
}

/// However the list changes between two polls, by entities appended or by
/// entities taken out, the mark stays inside it and everything tracked in front
/// of the mark is watched; and the mark moves on, by a chunk or to the end.
pub proof fn no_building_is_missed<M: Memory>(
    buildings: Buildings,
    memory: &M,
    after: Buildings,
    fired: Seq<Split>,
    before_list: Seq<u64>,
    list: Seq<u64>,
    building: spec_fn(u64) -> Option<(u64, usize)>,
)
    requires
        buildings.polled(memory, after, fired),
        is_steady(building),
        keeps_up(buildings, before_list, building),
        grew(before_list, list) || shrank(before_list, list),
        shows_list(buildings.paths, memory, list, building),
    ensures
        keeps_up(after, list, building),
        after.inspected == list.len() || after.inspected >= 32,
        grew(before_list, list) ==> after.inspected == list.len() || after.inspected
            >= buildings.inspected + 32,
{
    let count = list.len() as int;
    let paths = buildings.paths;
    what_is_there_is_read(memory, paths.entities + paths.size_offset, 0, list.len() as i32, 0);
    assert(paths.entity_count(memory) == count);
    let mark = rewound(buildings.inspected as int, buildings.last_count as int, count);
    if shrank(before_list, list) {
        let kept = choose|kept: Seq<int>| #[trigger] is_kept(before_list, list, kept);
        assert(list.len() <= before_list.len()) by {
            if list.len() > 0 {
                lemma_kept(before_list, list, kept, 0);
            }
        }
        assert forall|k: int|
            0 <= k < mark && k < list.len() && building(
                #[trigger] list[k],
            ) is Some implies buildings.watched@.contains(building(list[k])->0) by {
            lemma_kept(before_list, list, kept, k);
            assert(list[k] == before_list[kept[k]]);
        }
    } else {
        assert forall|k: int|
            0 <= k < mark && k < list.len() && building(
                #[trigger] list[k],
            ) is Some implies buildings.watched@.contains(building(list[k])->0) by {
            assert(before_list[k] == list[k]);
        }
    }
    assert(0 <= mark <= count);
    let end = caught_up(mark, count);
    if mark < count {
        lemma_looked_over(paths, memory, mark, end, buildings.watched@, list, building);
    }
}

/// Polls over lists that change by entities appended or taken out.
pub open spec fn are_followed<M: Memory>(
    memories: Seq<M>,
    known: Seq<Buildings>,
    fired: Seq<Seq<Split>>,
    lists: Seq<Seq<u64>>,
    building: spec_fn(u64) -> Option<(u64, usize)>,
) -> bool {
    &&& known.len() == memories.len() + 1
    &&& lists.len() == memories.len() + 1
    &&& fired.len() == memories.len()
    &&& keeps_up(known[0], lists[0], building)
    &&& forall|i: int, j: int|
        0 <= i < memories.len() && j == i + 1 ==> {
            &&& (#[trigger] known[i]).polled(&memories[i], #[trigger] known[j], fired[i])
            &&& grew(lists[i], lists[j]) || shrank(lists[i], lists[j])
            &&& shows_list(known[i].paths, &memories[i], lists[j], building)
        }
}

/// However many polls there are, the mark stays inside the list and everything
/// tracked in front of it is watched.
pub proof fn the_list_is_kept_up_with<M: Memory>(
    memories: Seq<M>,
    known: Seq<Buildings>,
    fired: Seq<Seq<Split>>,
    lists: Seq<Seq<u64>>,
    building: spec_fn(u64) -> Option<(u64, usize)>,
    i: int,
)
    requires
        is_steady(building),
        are_followed(memories, known, fired, lists, building),
        0 <= i < known.len(),
    ensures
        keeps_up(known[i], lists[i], building),
    decreases i,
{
    if i > 0 {
        the_list_is_kept_up_with(memories, known, fired, lists, building, i - 1);
        assert(known[i - 1].polled(&memories[i - 1], known[i], fired[i - 1]));
        no_building_is_missed(
            known[i - 1],
            &memories[i - 1],
            known[i],
            fired[i - 1],
            lists[i - 1],
            lists[i],
            building,
        );
    }
}

/// Once the list has stood still long enough, every tracked building in it is
/// watched: at 32 entities a poll, whatever was taken out or put in before.
pub proof fn every_building_comes_to_be_watched<M: Memory>(
    memories: Seq<M>,
    known: Seq<Buildings>,
    fired: Seq<Seq<Split>>,
    lists: Seq<Seq<u64>>,
    building: spec_fn(u64) -> Option<(u64, usize)>,
    from: int,
    to: int,
)
    requires
        is_steady(building),
        are_followed(memories, known, fired, lists, building),
        0 <= from < to < known.len(),
        forall|i: int| from <= i <= to ==> #[trigger] lists[i] == lists[from],
        lists[from].len() <= 32 * (to - from),
    ensures
        known[to].inspected == lists[to].len(),
        forall|k: int|
            0 <= k < lists[to].len() && building(#[trigger] lists[to][k]) is Some
                ==> known[to].watched@.contains(building(lists[to][k])->0),
{
    lemma_catches_up(memories, known, fired, lists, building, from, to);
    the_list_is_kept_up_with(memories, known, fired, lists, building, to);
    assert(is_covered(known[to].watched@, lists[to], lists[to].len() as int, building));
}

proof fn lemma_catches_up<M: Memory>(
    memories: Seq<M>,
    known: Seq<Buildings>,
    fired: Seq<Seq<Split>>,
    lists: Seq<Seq<u64>>,
    building: spec_fn(u64) -> Option<(u64, usize)>,
    from: int,
    to: int,
)
    requires
        is_steady(building),
        are_followed(memories, known, fired, lists, building),
        0 <= from <= to < known.len(),
        forall|i: int| from <= i <= to ==> #[trigger] lists[i] == lists[from],
    ensures
        known[to].inspected == lists[from].len() || known[to].inspected >= 32 * (to - from),
    decreases to - from,
{
    the_list_is_kept_up_with(memories, known, fired, lists, building, to);
    if from < to {
        lemma_catches_up(memories, known, fired, lists, building, from, to - 1);
        the_list_is_kept_up_with(memories, known, fired, lists, building, to - 1);
        assert(known[to - 1].polled(&memories[to - 1], known[to], fired[to - 1]));
        assert(lists[to - 1] == lists[from] && lists[to] == lists[from]);
        assert(grew(lists[to - 1], lists[to]));
        no_building_is_missed(
            known[to - 1],
            &memories[to - 1],
            known[to],
            fired[to - 1],
            lists[to - 1],
            lists[to],
            building,
        );
    }
}

/// The opening walk, step by step over a list that stands still.
pub open spec fn is_walked<M: Memory>(
    memory: &M,
    walks: Seq<OpeningWalk>,
    paths: Paths,
    list: Seq<u64>,
    building: spec_fn(u64) -> Option<(u64, usize)>,
) -> bool {
    &&& walks.len() > 0
    &&& walks[0].begun(memory, paths)
    &&& shows_list(paths, memory, list, building)
    &&& forall|i: int, j: int|
        0 <= i && j == i + 1 && j < walks.len() ==> (#[trigger] walks[i]).index < walks[i].total
            && walks[i].advanced(memory, #[trigger] walks[j])
    &&& walks.last().index >= walks.last().total
}

proof fn lemma_walked<M: Memory>(
    memory: &M,
    walks: Seq<OpeningWalk>,
    paths: Paths,
    list: Seq<u64>,
    building: spec_fn(u64) -> Option<(u64, usize)>,
    n: int,
)
    requires
        is_steady(building),
        is_walked(memory, walks, paths, list, building),
        0 <= n < walks.len(),
    ensures
        walks[n].buildings.paths == paths,
        walks[n].total == list.len(),
        0 <= walks[n].index <= walks[n].total,
        is_consistent(walks[n].buildings.watched@, building),
        is_covered(walks[n].buildings.watched@, list, walks[n].index as int, building),
        !walks[n].buildings.combined_fired,
        walks[n].buildings.finished@ == Seq::new(6, |i: int| false),
    decreases n,
{
    if n == 0 {
        what_is_there_is_read(memory, paths.entities + paths.size_offset, 0, list.len() as i32, 0);
    } else {
        lemma_walked(memory, walks, paths, list, building, n - 1);
        let before = walks[n - 1];
        assert(before.advanced(memory, walks[n]));
        lemma_looked_over(
            paths,
            memory,
            before.index as int,
            walks[n].index as int,
            before.buildings.watched@,
            list,
            building,
        );
    }
}

/// The opening walk ends with every tracked building of the save watched, and
/// those that are finished known to have been so on arrival.
pub proof fn the_opening_walk_misses_nothing<M: Memory>(
    memory: &M,
    walks: Seq<OpeningWalk>,
    paths: Paths,
    list: Seq<u64>,
    building: spec_fn(u64) -> Option<(u64, usize)>,
    found: Buildings,
)
    requires
        is_steady(building),
        is_walked(memory, walks, paths, list, building),
        walks.last().ends_as(memory, found),
    ensures
        keeps_up(found, list, building),
        found.inspected == list.len(),
        found.on_arrival@ == found.finished@,
        !found.combined_fired,
        forall|slot: int|
            0 <= slot < 6 ==> (#[trigger] found.finished@[slot] <==> exists|i: int|
                0 <= i < found.watched@.len() && (#[trigger] found.watched@[i]).1 == slot
                    && paths.is_finished(memory, found.watched@[i].0)),
{
    let last = walks.last();
    lemma_walked(memory, walks, paths, list, building, walks.len() - 1);
    assert(found.wf());
    reading_the_watched(paths, memory, found.watched@, last.buildings.finished@);
    assert forall|slot: int| 0 <= slot < 6 implies (#[trigger] found.finished@[slot] <==> exists|
        i: int,
    |
        0 <= i < found.watched@.len() && (#[trigger] found.watched@[i]).1 == slot
            && paths.is_finished(memory, found.watched@[i].0)) by {
        assert(!last.buildings.finished@[slot]);
    }
}

/// A building is finished where its state is the number for it and it is still a
/// building's state, and in no other case.
pub proof fn a_building_is_finished_by_its_state<M: Memory>(
    paths: Paths,
    memory: &M,
    state: u64,
    number: i32,
    word: u64,
)
    requires
        has_number(memory, state + paths.state_offset, number),
        has_word(memory, state as int, word),
        paths.block_state_vtable != 0,
    ensures
        paths.is_finished(memory, state) <==> number == 1 && word == paths.block_state_vtable,
{
    what_is_there_is_read(memory, state + paths.state_offset, 0, number, 0);
    what_is_there_is_read(memory, state as int, word, 0, 0);
}

/// The split that stands for the buildings of one slot alone.
pub open spec fn split_for(slot: int, split: Split) -> bool {
    &&& split is Forester <==> slot == 0
    &&& split is GearWorkshop <==> slot == 1
    &&& split is TappersShack <==> slot == 2
    &&& split is AdvancedScience <==> slot == 3
    &&& split !is SmelterAndWoodWorkshop
}

/// The first poll that reads a watched building finished fires its split, where
/// none of its kind was finished before or on arrival.
pub proof fn a_finished_building_fires_its_split<M: Memory>(
    buildings: Buildings,
    memory: &M,
    after: Buildings,
    fired: Seq<Split>,
    state: u64,
    slot: usize,
    split: Split,
)
    requires
        buildings.wf(),
        after.wf(),
        buildings.polled(memory, after, fired),
        after.watched@.contains((state, slot)),
        buildings.paths.block_state_vtable != 0,
        has_number(memory, state + buildings.paths.state_offset, 1),
        has_word(memory, state as int, buildings.paths.block_state_vtable),
        slot < 4,
        split_for(slot as int, split),
        !buildings.finished@[slot as int],
        !buildings.on_arrival@[slot as int],
    ensures
        fired.contains(split),
        after.finished@[slot as int],
{
    let paths = buildings.paths;
    a_building_is_finished_by_its_state(paths, memory, state, 1, paths.block_state_vtable);
    reading_the_watched(paths, memory, after.watched@, buildings.finished@);
    let i = after.watched@.index_of((state, slot));
    assert(after.watched@[i].1 == slot && paths.is_finished(memory, after.watched@[i].0));
    let done = after.finished@[slot as int];
    assert(done);
    what_comes_due_fires(buildings, memory, after, fired, split);
}

/// The pair fires on the first poll that reads the later of the two finished,
/// whichever that is.
pub proof fn the_later_of_the_pair_fires<M: Memory>(
    buildings: Buildings,
    memory: &M,
    after: Buildings,
    fired: Seq<Split>,
    state: u64,
    slot: usize,
)
    requires
        buildings.wf(),
        after.wf(),
        buildings.polled(memory, after, fired),
        after.watched@.contains((state, slot)),
        buildings.paths.block_state_vtable != 0,
        has_number(memory, state + buildings.paths.state_offset, 1),
        has_word(memory, state as int, buildings.paths.block_state_vtable),
        slot == 4 && buildings.finished@[5] || slot == 5 && buildings.finished@[4],
        !buildings.combined_fired,
        !(buildings.on_arrival@[4] && buildings.on_arrival@[5]),
    ensures
        fired.contains(Split::SmelterAndWoodWorkshop),
{
    let paths = buildings.paths;
    a_building_is_finished_by_its_state(paths, memory, state, 1, paths.block_state_vtable);
    reading_the_watched(paths, memory, after.watched@, buildings.finished@);
    let i = after.watched@.index_of((state, slot));
    assert(after.watched@[i].1 == slot && paths.is_finished(memory, after.watched@[i].0));
    let done = (after.finished@[4], after.finished@[5]);
    assert(done.0 && done.1);
    what_comes_due_fires(buildings, memory, after, fired, Split::SmelterAndWoodWorkshop);
}

/// No split of a single building fires but for a watched one of its slot that
/// reads as finished.
pub proof fn nothing_fires_but_for_a_building<M: Memory>(
    buildings: Buildings,
    memory: &M,
    after: Buildings,
    fired: Seq<Split>,
    slot: int,
    split: Split,
)
    requires
        is_honest(memory),
        buildings.wf(),
        after.wf(),
        buildings.polled(memory, after, fired),
        0 <= slot < 4,
        split_for(slot, split),
        fired.contains(split),
    ensures
        !buildings.finished@[slot],
        !buildings.on_arrival@[slot],
        exists|i: int|
            0 <= i < after.watched@.len() && (#[trigger] after.watched@[i]).1 == slot && has_word(
                memory,
                after.watched@[i].0 as int,
                buildings.paths.block_state_vtable,
            ) && has_number(
                memory,
                plus(after.watched@[i].0, buildings.paths.state_offset as u64) as int,
                1,
            ),
{
    let paths = buildings.paths;
    what_comes_due_fires(buildings, memory, after, fired, split);
    reading_the_watched(paths, memory, after.watched@, buildings.finished@);
    let done = after.finished@[slot];
    assert(done && !buildings.finished@[slot]);
    let i = choose|i: int|
        0 <= i < after.watched@.len() && (#[trigger] after.watched@[i]).1 == slot
            && paths.is_finished(memory, after.watched@[i].0);
    let state = after.watched@[i].0;
    what_is_read_is_there(memory, state);
    what_is_read_is_there(memory, plus(state, paths.state_offset as u64));
}

/// The mark stays inside the list, whatever memory holds.
pub proof fn the_mark_stays_inside<M: Memory>(
    buildings: Buildings,
    memory: &M,
    after: Buildings,
    fired: Seq<Split>,
    size: i32,
)
    requires
        buildings.polled(memory, after, fired),
        0 <= buildings.inspected <= buildings.last_count,
    ensures
        0 <= after.inspected <= after.last_count,
        has_number(memory, buildings.paths.entities + buildings.paths.size_offset, size)
            ==> after.last_count == if 0 <= size < 500_000 {
            size
        } else {
            0
        },
        after.paths == buildings.paths,
        after.on_arrival@ == buildings.on_arrival@,
{
    what_is_there_is_read(
        memory,
        buildings.paths.entities + buildings.paths.size_offset,
        0,
        size,
        0,
    );
}

/// What is watched stays watched.
pub proof fn what_is_watched_stays_watched<M: Memory>(
    buildings: Buildings,
    memory: &M,
    after: Buildings,
    fired: Seq<Split>,
)
    requires
        buildings.polled(memory, after, fired),
    ensures
        buildings.watched@.is_prefix_of(after.watched@),
{
    let paths = buildings.paths;
    let count = paths.entity_count(memory) as int;
    let mark = rewound(buildings.inspected as int, buildings.last_count as int, count);
    if let Some(items) = field_pointer(memory, paths.entities, paths.items_offset) {
        lemma_inspected_grows(
            paths,
            memory,
            items,
            if mark < 0 {
                0
            } else {
                mark
            },
            caught_up(mark, count),
            buildings.watched@,
        );
    }
}

proof fn lemma_inspected_grows<M: Memory>(
    paths: Paths,
    memory: &M,
    items: u64,
    from: int,
    to: int,
    watched: Seq<(u64, usize)>,
)
    ensures
        watched.is_prefix_of(paths.inspected(memory, items, from, to, watched)),
    decreases to - from,
{
    if from < to {
        lemma_inspected_grows(paths, memory, items, from, to - 1, watched);
    }
}

/// A slot is finished where it was, or where one of its buildings that is watched
/// reads as finished; and in no other case.
pub proof fn a_slot_is_finished_by_its_buildings<M: Memory>(
    buildings: Buildings,
    memory: &M,
    after: Buildings,
    fired: Seq<Split>,
    slot: int,
)
    requires
        buildings.wf(),
        after.wf(),
        buildings.polled(memory, after, fired),
        0 <= slot < 6,
    ensures
        after.finished@[slot] <==> buildings.finished@[slot] || exists|i: int|
            0 <= i < after.watched@.len() && (#[trigger] after.watched@[i]).1 == slot
                && buildings.paths.is_finished(memory, after.watched@[i].0),
        after.combined_fired <==> buildings.combined_fired || (after.finished@[4]
            && after.finished@[5] && !(after.on_arrival@[4] && after.on_arrival@[5])),
{
    reading_the_watched(buildings.paths, memory, after.watched@, buildings.finished@);
    let done = (after.finished@[slot], after.finished@[4], after.finished@[5]);
}

/// The opening walk goes on until it has come to the end of the list.
pub proof fn the_opening_walk_goes_on<M: Memory>(
    walk: OpeningWalk,
    memory: &M,
    after: OpeningWalk,
    paths: Paths,
    size: i32,
)
    ensures
        walk.index < walk.total && walk.advanced(memory, after) ==> walk.index < after.index
            <= after.total && after.total == walk.total,
        walk.begun(memory, paths) ==> walk.index == 0 && walk.buildings.watched@.len() == 0
            && walk.buildings.paths == paths,
        walk.begun(memory, paths) && 0 <= size < 500_000 && has_number(
            memory,
            paths.entities + paths.size_offset,
            size,
        ) ==> walk.total == size,
{
    what_is_there_is_read(memory, paths.entities + paths.size_offset, 0, size, 0);
}

/// Whether none of the first `n` components at `items` is a building's state.
pub open spec fn has_no_state<M: Memory>(paths: Paths, memory: &M, items: u64, n: int) -> bool {
    forall|k: int, component: u64|
        0 <= k < n && component != 0 && #[trigger] has_word(memory, place(items, k), component)
            ==> !has_word(memory, component as int, paths.block_state_vtable)
}

proof fn lemma_no_component<M: Memory>(paths: Paths, memory: &M, items: u64, i: int, n: int)
    requires
        is_honest(memory),
        0 <= i,
        place(items, n) < top(),
        has_no_state(paths, memory, items, n),
    ensures
        component_from(memory, paths.block_state_vtable, items, i, n) is None,
    decreases n - i,
{
    if i < n {
        assert(element(items, i) as int == place(items, i));
        what_is_read_is_there(memory, element(items, i));
        if let Some(component) = pointer_at(memory, element(items, i)) {
            assert(has_word(memory, place(items, i), component));
            what_is_read_is_there(memory, component);
        }
        lemma_no_component(paths, memory, items, i + 1, n);
    }
}

/// An entity without a state among its first components is not tracked, however
/// it is called; no more than 256 of them are looked at.
pub proof fn an_entity_without_a_state_is_not_tracked<M: Memory>(
    paths: Paths,
    memory: &M,
    list: u64,
    i: int,
    entity: u64,
    cache: u64,
    components: u64,
    size: i32,
    items: u64,
)
    requires
        is_honest(memory),
        0 <= i,
        place(list, i) < top(),
        entity != 0 && cache != 0 && components != 0 && items != 0,
        has_word(memory, place(list, i), entity),
        has_word(memory, entity + paths.cache_offset, cache),
        has_word(memory, cache + paths.components_offset, components),
        has_number(memory, components + paths.size_offset, size),
        has_word(memory, components + paths.items_offset, items),
        place(items, 256) < top(),
        has_no_state(
            paths,
            memory,
            items,
            if 0 <= size < 256 {
                size as int
            } else if size < 0 {
                0
            } else {
                256
            },
        ),
    ensures
        paths.traced(memory, list, i) is None,
{
    assert(element(list, i) as int == place(list, i));
    what_is_there_is_read(memory, place(list, i), entity, 0, 0);
    what_is_there_is_read(memory, entity + paths.cache_offset, cache, 0, 0);
    what_is_there_is_read(memory, cache + paths.components_offset, components, 0, 0);
    what_is_there_is_read(memory, components + paths.size_offset, 0, size, 0);
    what_is_there_is_read(memory, components + paths.items_offset, items, 0, 0);
    let n = if 0 <= size < 256 {
        size as int
    } else if size < 0 {
        0
    } else {
        256
    };
    lemma_no_component(paths, memory, items, 0, n);
}

/// Nothing is tracked through a null reference.
pub proof fn nothing_is_tracked_through_a_null<M: Memory>(
    paths: Paths,
    memory: &M,
    list: u64,
    i: int,
    entity: u64,
    cache: u64,
)
    requires
        0 <= i,
        place(list, i) < top(),
        has_word(memory, place(list, i), entity),
        entity == 0 || has_word(memory, entity + paths.cache_offset, cache),
        entity == 0 || cache == 0 || has_word(memory, cache + paths.name_offset, 0) || has_word(
            memory,
            cache + paths.components_offset,
            0,
        ),
    ensures
        paths.traced(memory, list, i) is None,
{
    assert(element(list, i) as int == place(list, i));
    what_is_there_is_read(memory, place(list, i), entity, 0, 0);
    what_is_there_is_read(memory, entity + paths.cache_offset, cache, 0, 0);
    what_is_there_is_read(memory, cache + paths.name_offset, 0, 0, 0);
    what_is_there_is_read(memory, cache + paths.components_offset, 0, 0, 0);
}

/// A tracked building fires its split on the first poll that reads it finished,
/// wherever in the list it stands and whatever was put in or taken out before,
/// once the list has stood still long enough for all of it to be looked at.
pub proof fn a_building_put_in_late_fires_its_split<M: Memory>(
    memories: Seq<M>,
    known: Seq<Buildings>,
    fired: Seq<Seq<Split>>,
    lists: Seq<Seq<u64>>,
    building: spec_fn(u64) -> Option<(u64, usize)>,
    from: int,
    to: int,
    k: int,
    split: Split,
)
    requires
        is_steady(building),
        are_followed(memories, known, fired, lists, building),
        0 <= from < to < memories.len(),
        forall|i: int| from <= i <= to ==> #[trigger] lists[i] == lists[from],
        lists[from].len() <= 32 * (to - from),
        0 <= k < lists[to].len(),
        known[to].wf(),
        known[to + 1].wf(),
        building(lists[to][k]) matches Some((state, slot)) && {
            &&& slot < 4
            &&& split_for(slot as int, split)
            &&& !known[to].finished@[slot as int]
            &&& !known[to].on_arrival@[slot as int]
            &&& has_number(&memories[to], state + known[to].paths.state_offset, 1)
            &&& has_word(&memories[to], state as int, known[to].paths.block_state_vtable)
        },
        known[to].paths.block_state_vtable != 0,
    ensures
        fired[to].contains(split),
{
    every_building_comes_to_be_watched(memories, known, fired, lists, building, from, to);
    assert(known[to].polled(&memories[to], known[to + 1], fired[to]));
    what_is_watched_stays_watched(known[to], &memories[to], known[to + 1], fired[to]);
    let (state, slot) = building(lists[to][k])->0;
    assert(known[to].watched@.contains((state, slot)));
    let i = known[to].watched@.index_of((state, slot));
    assert(known[to + 1].watched@[i] == (state, slot));
    a_finished_building_fires_its_split(
        known[to],
        &memories[to],
        known[to + 1],
        fired[to],
        state,
        slot,
        split,
    );
}

} // verus!
