//! The wonder: seen unlocked wherever its name stands, and the run's end.
use vstd::prelude::*;

use crate::collections::{set_at, set_count_offset, HashSet};
use crate::memory::{plus, pointer_at, Memory};
use crate::metadata::Module;
use crate::promise::reading::{
    a_string_is_its_text, has_byte, has_number, has_text, has_word, is_ascii, is_honest, top,
    what_is_read_is_there, what_is_there_is_read,
};
use crate::singletons::instance_of;
use crate::wonder::{completion_in, unlock_in, WonderCompletion, WonderUnlock};

verus! {

/// The address of slot `i` of a set whose slots are at `slots`.
pub open spec fn slot_at(slots: u64, i: int) -> int {
    slots + 0x20 + 16 * i
}

/// Whether the slots of a set stay below the top of the address space.
pub open spec fn is_below_top(set: HashSet) -> bool {
    slot_at(set.slots, set.last_index as int) < top()
}

/// Whether slot `i` of a set is one of those in use, and its value is the string
/// `text`.
pub open spec fn is_in_slot<M: Memory>(memory: &M, set: HashSet, i: int, text: Seq<char>) -> bool {
    &&& 0 <= i < set.last_index
    &&& exists|hash: i32| hash >= 0 && #[trigger] has_number(memory, slot_at(set.slots, i), hash)
    &&& exists|value: u64|
        value != 0 && #[trigger] has_word(memory, slot_at(set.slots, i) + 8, value) && has_text(
            memory,
            value as int,
            text,
        )
}

/// A set's shape is what its fields say, where its class names them: the array of
/// slots, and how many are used, which is no more than there are.
pub proof fn a_set_is_what_its_fields_say<M: Memory>(
    memory: &M,
    module: Module,
    address: u64,
    slots_field: u32,
    last_field: u32,
    slots: u64,
    last_index: i32,
    capacity: u64,
)
    requires
        module.class_of(memory, address) matches Some(class) && class.offset("_slots"@) == Some(
            slots_field,
        ) && class.offset("_lastIndex"@) == Some(last_field),
        slots != 0,
        has_word(memory, address + slots_field, slots),
        has_number(memory, address + last_field, last_index),
        has_word(memory, slots + 0x18, capacity),
        capacity < 0x8000_0000_0000_0000,
    ensures
        set_at(memory, module, address) == if 0 <= last_index <= capacity && capacity > 0 {
            Some(HashSet { slots, last_index })
        } else {
            None
        },
{
    what_is_there_is_read(memory, address + slots_field, slots, 0, 0);
    what_is_there_is_read(memory, address + last_field, 0, last_index, 0);
    what_is_there_is_read(memory, slots + 0x18, capacity, 0, 0);
}

/// Where the class does not name them, the fields are where Mono puts them, and
/// the set has to read like one there: its count first.
pub proof fn a_set_without_names_is_read_where_it_lies<M: Memory>(
    memory: &M,
    module: Module,
    address: u64,
    slots: u64,
    count: i32,
    last_index: i32,
    capacity: u64,
)
    requires
        module.class_of(memory, address) is None,
        slots != 0,
        has_word(memory, address + 0x18, slots),
        has_number(memory, address + 0x30, count),
        has_number(memory, address + 0x34, last_index),
        has_word(memory, slots + 0x18, capacity),
        capacity < 0x8000_0000_0000_0000,
    ensures
        set_at(memory, module, address) == if capacity > 0 && 0 <= count <= last_index <= capacity {
            Some(HashSet { slots, last_index })
        } else {
            None
        },
        set_count_offset(memory, module, address) == if capacity > 0 && 0 <= count <= last_index
            <= capacity {
            Some(0x30u32)
        } else {
            None
        },
{
    what_is_there_is_read(memory, address + 0x18, slots, 0, 0);
    what_is_there_is_read(memory, address + 0x30, 0, count, 0);
    what_is_there_is_read(memory, address + 0x34, 0, last_index, 0);
    what_is_there_is_read(memory, slots + 0x18, capacity, 0, 0);
}

/// A string that stands in any used slot is in the set.
pub proof fn any_slot_counts<M: Memory>(memory: &M, set: HashSet, i: int, text: Seq<char>)
    requires
        is_honest(memory),
        is_below_top(set),
        is_in_slot(memory, set, i, text),
    ensures
        set.contains(memory, text),
{
    let hash = choose|hash: i32|
        hash >= 0 && #[trigger] has_number(memory, slot_at(set.slots, i), hash);
    let value = choose|value: u64|
        value != 0 && #[trigger] has_word(memory, slot_at(set.slots, i) + 8, value) && has_text(
            memory,
            value as int,
            text,
        );
    what_is_there_is_read(memory, slot_at(set.slots, i), 0, hash, 0);
    what_is_there_is_read(memory, slot_at(set.slots, i) + 8, value, 0, 0);
    a_string_is_its_text(memory, value, text);
    assert(plus(set.slots, (0x20 + i * 16) as u64) as int == slot_at(set.slots, i));
    assert(set.holds(memory, i, text));
}

/// A string that is in the set stands in one of its used slots, none of which is
/// marked as free.
pub proof fn only_slots_count<M: Memory>(memory: &M, set: HashSet, text: Seq<char>)
    requires
        is_honest(memory),
        is_ascii(text),
        is_below_top(set),
        set.contains(memory, text),
    ensures
        exists|i: int, value: u64|
            0 <= i < set.last_index && value != 0 && #[trigger] has_word(
                memory,
                slot_at(set.slots, i) + 8,
                value,
            ) && (value + 0x14 < top() ==> has_text(memory, value as int, text)) && forall|
                hash: i32,
            | #[trigger] has_number(memory, slot_at(set.slots, i), hash) ==> hash >= 0,
{
    let i = choose|i: int| 0 <= i < set.last_index && #[trigger] set.holds(memory, i, text);
    let slot = plus(set.slots, (0x20 + i * 16) as u64);
    assert(slot as int == slot_at(set.slots, i));
    let value = pointer_at(memory, plus(slot, 8))->0;
    what_is_read_is_there(memory, plus(slot, 8));
    assert(has_word(memory, slot_at(set.slots, i) + 8, value));
    if value + 0x14 < top() {
        a_string_is_its_text(memory, value, text);
    }
    assert forall|hash: i32| #[trigger] has_number(memory, slot_at(set.slots, i), hash) implies hash
        >= 0 by {
        what_is_there_is_read(memory, slot_at(set.slots, i), 0, hash, 0);
    }
}

/// The template names of the two factions' wonders.
pub open spec fn is_wonder(name: Seq<char>) -> bool {
    name == "EarthRecultivator.Folktails"@ || name == "EarthRepopulator.IronTeeth"@
}

/// The wonder is seen unlocked on the first tick that the count of unlocked
/// buildings has changed and its name is among them, in whichever slot.
pub proof fn a_wonder_in_any_slot_unlocks<M: Memory>(
    unlock: WonderUnlock,
    memory: &M,
    module: Module,
    set: HashSet,
    i: int,
    name: Seq<char>,
    count: i32,
)
    requires
        is_honest(memory),
        !unlock.fired,
        !unlock.unlocked_on_arrival,
        has_number(memory, unlock.set + unlock.count_offset, count),
        unlock.last_count != Some(count),
        set_at(memory, module, unlock.set) == Some(set),
        is_below_top(set),
        is_wonder(name),
        is_in_slot(memory, set, i, name),
    ensures
        unlock.polled(memory, module).1,
        unlock.polled(memory, module).0.fired,
{
    what_is_there_is_read(memory, unlock.set + unlock.count_offset, 0, count, 0);
    any_slot_counts(memory, set, i, name);
}

/// The wonder is seen unlocked only where a wonder's name is in the set, and only
/// by a watcher that found it locked.
pub proof fn nothing_but_a_wonder_unlocks<M: Memory>(
    unlock: WonderUnlock,
    memory: &M,
    module: Module,
)
    requires
        unlock.polled(memory, module).1,
    ensures
        !unlock.fired,
        !unlock.unlocked_on_arrival,
        set_at(memory, module, unlock.set) matches Some(set) && exists|name: Seq<char>| #[trigger]
            is_wonder(name) && set.contains(memory, name),
{
    let set = set_at(memory, module, unlock.set)->0;
    if set.contains(memory, "EarthRecultivator.Folktails"@) {
        assert(is_wonder("EarthRecultivator.Folktails"@));
    } else {
        assert(is_wonder("EarthRepopulator.IronTeeth"@));
    }
}

/// The unlocked buildings are watched through the science system's service: the
/// set is the one its field holds, and a wonder in any slot of it on arrival is
/// no news.
pub proof fn the_unlocks_are_the_science_systems<M: Memory>(
    memory: &M,
    module: Module,
    event_bus_vtable: u64,
    entries: Seq<(u64, u64)>,
    vtable: u64,
    field: u32,
    instance: u64,
    set: u64,
)
    requires
        module.vtable("Timberborn.ScienceSystem"@, "BuildingUnlockingService"@) == Some(vtable),
        module.offset(
            "Timberborn.ScienceSystem"@,
            "BuildingUnlockingService"@,
            "_eventBus"@,
        ) is Some,
        module.offset(
            "Timberborn.ScienceSystem"@,
            "BuildingUnlockingService"@,
            "_unlockedBuildings"@,
        ) == Some(field),
        instance_of(entries, vtable) == Some(instance),
        set != 0,
        has_word(memory, instance + field, set),
    ensures
        unlock_in(memory, module, event_bus_vtable, entries) is Some <==> set_count_offset(
            memory,
            module,
            set,
        ) is Some,
        unlock_in(memory, module, event_bus_vtable, entries) matches Some(unlock) ==> {
            &&& unlock.instance == instance
            &&& unlock.set == set
            &&& Some(unlock.count_offset) == set_count_offset(memory, module, set)
            &&& !unlock.fired
            &&& unlock.last_count is None
            &&& unlock.class.vtable == vtable
            &&& unlock.class.validator.expected_vtable == event_bus_vtable
        },
{
    what_is_there_is_read(memory, instance + field, set, 0, 0);
}

/// A wonder that is in the set on arrival is known to be: in any slot, and only
/// then.
pub proof fn a_wonder_on_arrival_is_known<M: Memory>(
    memory: &M,
    module: Module,
    event_bus_vtable: u64,
    entries: Seq<(u64, u64)>,
    unlock: WonderUnlock,
    i: int,
    name: Seq<char>,
)
    requires
        is_honest(memory),
        unlock_in(memory, module, event_bus_vtable, entries) == Some(unlock),
        is_wonder(name),
    ensures
        set_at(memory, module, unlock.set) matches Some(set) && is_below_top(set) && is_in_slot(
            memory,
            set,
            i,
            name,
        ) ==> unlock.unlocked_on_arrival,
        unlock.unlocked_on_arrival ==> (set_at(memory, module, unlock.set) matches Some(set)
            && exists|name: Seq<char>| #[trigger] is_wonder(name) && set.contains(memory, name)),
{
    if let Some(set) = set_at(memory, module, unlock.set) {
        if is_below_top(set) && is_in_slot(memory, set, i, name) {
            any_slot_counts(memory, set, i, name);
        }
        if unlock.unlocked_on_arrival {
            if set.contains(memory, "EarthRecultivator.Folktails"@) {
                assert(is_wonder("EarthRecultivator.Folktails"@));
            } else {
                assert(is_wonder("EarthRepopulator.IronTeeth"@));
            }
        }
    }
}

/// The run ends when the countdown's flag is set, and was not when it began to be
/// watched: any byte but zero is set.
pub proof fn the_run_ends_with_the_countdown<M: Memory>(
    completion: WonderCompletion,
    memory: &M,
    byte: u8,
)
    requires
        has_byte(memory, completion.instance + completion.countdown_finished, byte),
    ensures
        completion.ended(memory) <==> byte != 0 && !completion.was_finished_on_arrival,
{
    what_is_there_is_read(memory, completion.instance + completion.countdown_finished, 0, 0, byte);
}

/// The countdown is watched through the wonder's completion service, and whether
/// it was finished on arrival is what its flag said.
pub proof fn the_countdown_is_the_wonders<M: Memory>(
    memory: &M,
    module: Module,
    event_bus_vtable: u64,
    entries: Seq<(u64, u64)>,
    vtable: u64,
    finished_field: u32,
    day_field: u32,
    instance: u64,
    byte: u8,
)
    requires
        module.vtable(
            "Timberborn.GameWonderCompletion"@,
            "WonderCompletionCountdownStarter"@,
        ) == Some(vtable),
        module.offset(
            "Timberborn.GameWonderCompletion"@,
            "WonderCompletionCountdownStarter"@,
            "_eventBus"@,
        ) is Some,
        module.offset(
            "Timberborn.GameWonderCompletion"@,
            "WonderCompletionCountdownStarter"@,
            "CountdownFinished"@,
        ) == Some(finished_field),
        module.offset(
            "Timberborn.GameWonderCompletion"@,
            "WonderCompletionCountdownStarter"@,
            "_unlockDay"@,
        ) == Some(day_field),
        instance_of(entries, vtable) == Some(instance),
        has_byte(memory, instance + finished_field, byte),
    ensures
        completion_in(memory, module, event_bus_vtable, entries) matches Some(completion) && {
            &&& completion.instance == instance
            &&& completion.countdown_finished == finished_field
            &&& completion.unlock_day == day_field
            &&& completion.was_finished_on_arrival == (byte != 0)
            &&& completion.class.vtable == vtable
            &&& completion.class.validator.expected_vtable == event_bus_vtable
        },
{
    what_is_there_is_read(memory, instance + finished_field, 0, 0, byte);
}

/// As long as the count of unlocked buildings stands still, or cannot be read,
/// nothing is news.
pub proof fn a_count_that_stands_still_is_no_news<M: Memory>(
    unlock: WonderUnlock,
    memory: &M,
    module: Module,
    count: i32,
)
    requires
        has_number(memory, unlock.set + unlock.count_offset, count),
        unlock.last_count == Some(count),
    ensures
        !unlock.polled(memory, module).1,
        unlock.polled(memory, module).0 == unlock,
{
    what_is_there_is_read(memory, unlock.set + unlock.count_offset, 0, count, 0);
}

} // verus!
