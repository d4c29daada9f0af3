//! What is looked for in the game, by name.
use vstd::prelude::*;

use crate::clock::{
    after_moments, lengths_at, lengths_of, progress_at, pushed, sub_day_of, within_of, Clock,
    GameTime, Moment, Push, SubDay, TickProgress,
};
use crate::collections::list_offsets;
use crate::floats::{at_most_zero, equal, not_a_number, positive_sum, sum_at_most_zero};
use crate::memory::Memory;
use crate::metadata::Module;
use crate::promise::reading::{bits_of, has_number, has_word, top, what_is_there_is_read};
use crate::promise::scene::holds;
use crate::run_start::{bound, initializer_in};
use crate::scene::loader_in;
use crate::service::{bus_vtable, service, static_in, Locatable};
use crate::singletons::{instance_of, layout_of};
use crate::watch::entities_in;

verus! {

/// Whether a class was located by these names: its vtable is the class's, and its
/// instances are told by the field `field`, which leads to an `expected` object.
pub open spec fn is_located(
    module: Module,
    class: Locatable,
    image: Seq<char>,
    name: Seq<char>,
    field: Seq<char>,
    expected: u64,
) -> bool {
    &&& class.image@ == image
    &&& class.name@ == name
    &&& module.vtable(image, name) == Some(class.vtable)
    &&& module.offset(image, name, field) == Some(class.validator.field_offset)
    &&& class.validator.expected_vtable == expected
}

/// The event bus that services are told by is the singleton system's.
pub proof fn services_are_told_by_the_event_bus(module: Module)
    ensures
        bus_vtable(module) == module.vtable("Timberborn.SingletonSystem"@, "EventBus"@),
        service(module, "Timberborn.TimeSystem", "DayNightCycle", bus_vtable(module)->0) matches
            Some(clock) ==> is_located(
            module,
            clock,
            "Timberborn.TimeSystem"@,
            "DayNightCycle"@,
            "_eventBus"@,
            bus_vtable(module)->0,
        ),
{
}

/// The run start is read off the game startup's initializer, once its names
/// resolve.
pub proof fn the_run_start_is_the_initializers(module: Module, bus: u64)
    ensures
        initializer_in(module, bus) is Some <==> module.vtable(
            "Timberborn.GameStartup"@,
            "GameInitializer"@,
        ) is Some && module.offset(
            "Timberborn.GameStartup"@,
            "GameInitializer"@,
            "_eventBus"@,
        ) is Some && module.offset(
            "Timberborn.GameStartup"@,
            "GameInitializer"@,
            "_initializationState"@,
        ) is Some,
        initializer_in(module, bus) matches Some((class, offset)) ==> is_located(
            module,
            class,
            "Timberborn.GameStartup"@,
            "GameInitializer"@,
            "_eventBus"@,
            bus,
        ) && module.offset(
            "Timberborn.GameStartup"@,
            "GameInitializer"@,
            "_initializationState"@,
        ) == Some(offset),
{
}

/// A watcher that was just bound has seen nothing, and knows the save's name by
/// the static that holds it.
pub proof fn a_bound_start_has_seen_nothing(
    module: Module,
    class: Locatable,
    offset: u32,
    instance: u64,
    new_game: Option<bool>,
    watched_load: bool,
    table: u64,
    field: u32,
)
    ensures
        ({
            let start = bound(module, class, offset, instance, new_game, watched_load);
            &&& start.instance == instance && start.offset == offset && start.class == class
            &&& !start.seen_before_ui && !start.fired && !start.warned_late && start.last is None
            &&& start.new_game == new_game && start.watched_load == watched_load
            &&& (module.named(
                "Timberborn.ErrorReporting"@,
                "WorldDataService"@,
            ) matches Some(service) && service.static_table == Some(table) && service.offset(
                "SourceFileName"@,
            ) == Some(field) && table + field < top()) ==> start.source_file_name == Some(
                (table + field) as u64,
            )
        }),
{
}

/// The scene loader is told by the asset loader that it holds, and says by its
/// own field whether it is at work.
pub proof fn the_loader_is_told_by_its_assets(module: Module)
    ensures
        loader_in(module) is Some <==> module.vtable(
            "Timberborn.AssetSystem"@,
            "AssetLoader"@,
        ) is Some && module.vtable("Timberborn.SceneLoading"@, "SceneLoader"@) is Some
            && module.offset(
            "Timberborn.SceneLoading"@,
            "SceneLoader"@,
            "_assetLoader"@,
        ) is Some && module.offset(
            "Timberborn.SceneLoading"@,
            "SceneLoader"@,
            "_isLoading"@,
        ) is Some,
        loader_in(module) matches Some((class, offset)) ==> is_located(
            module,
            class,
            "Timberborn.SceneLoading"@,
            "SceneLoader"@,
            "_assetLoader"@,
            module.vtable("Timberborn.AssetSystem"@, "AssetLoader"@)->0,
        ) && module.offset("Timberborn.SceneLoading"@, "SceneLoader"@, "_isLoading"@) == Some(
            offset,
        ),
{
}

/// The container is the singleton system's repository, told by its listener,
/// which has all the singletons.
pub proof fn the_container_is_the_repository(module: Module)
    ensures
        layout_of(module) matches Some(layout) ==> is_located(
            module,
            layout.class,
            "Timberborn.SingletonSystem"@,
            "SingletonRepository"@,
            "_singletonListener"@,
            module.vtable("Timberborn.SingletonSystem"@, "SingletonListener"@)->0,
        ) && module.offset(
            "Timberborn.SingletonSystem"@,
            "SingletonRepository"@,
            "_singletonListener"@,
        ) == Some(layout.listener_offset) && module.offset(
            "Timberborn.SingletonSystem"@,
            "SingletonListener"@,
            "_allSingletons"@,
        ) == Some(layout.all_singletons_offset),
        module.vtable("Timberborn.SingletonSystem"@, "SingletonListener"@) is Some && module.vtable(
            "Timberborn.SingletonSystem"@,
            "SingletonRepository"@,
        ) is Some && module.offset(
            "Timberborn.SingletonSystem"@,
            "SingletonRepository"@,
            "_singletonListener"@,
        ) is Some && module.offset(
            "Timberborn.SingletonSystem"@,
            "SingletonListener"@,
            "_allSingletons"@,
        ) is Some ==> layout_of(module) is Some,
{
}

/// The entities are those of the registry that the game-over checker holds, and
/// every field of the way is the one of that name.
pub proof fn the_entities_are_the_registrys<M: Memory>(
    memory: &M,
    module: Module,
    entries: Seq<(u64, u64)>,
    vtable: u64,
    checker: u64,
    registry: u64,
    entities: u64,
)
    requires
        module.vtable("Timberborn.GameOver"@, "GameOverChecker"@) == Some(vtable),
        instance_of(entries, vtable) == Some(checker),
        registry != 0,
        holds(memory, module, checker, "_entityRegistry"@, registry),
        entities != 0,
        holds(memory, module, registry, "_entitiesInInstantiationOrder"@, entities),
    ensures
        ({
            let base = "Timberborn.BaseComponentSystem"@;
            let block = "Timberborn.BlockSystem"@;
            let found = entities_in(memory, module, entries);
            &&& found is Ok <==> {
                &&& module.offset(base, "BaseComponent"@, "_componentCache"@) is Some
                &&& module.offset(base, "ComponentCache"@, "_name"@) is Some
                &&& module.offset(base, "ComponentCache"@, "_components"@) is Some
                &&& module.offset(block, "BlockObjectState"@, "_state"@) is Some
                &&& module.vtable(block, "BlockObjectState"@) is Some
                &&& list_offsets(memory, module, entities) is Some
            }
            &&& found matches Ok(paths) ==> {
                &&& paths.entities == entities
                &&& Some((paths.size_offset, paths.items_offset)) == list_offsets(
                    memory,
                    module,
                    entities,
                )
                &&& Some(paths.cache_offset) == module.offset(
                    base,
                    "BaseComponent"@,
                    "_componentCache"@,
                )
                &&& Some(paths.name_offset) == module.offset(base, "ComponentCache"@, "_name"@)
                &&& Some(paths.components_offset) == module.offset(
                    base,
                    "ComponentCache"@,
                    "_components"@,
                )
                &&& Some(paths.state_offset) == module.offset(
                    block,
                    "BlockObjectState"@,
                    "_state"@,
                )
                &&& Some(paths.block_state_vtable) == module.vtable(block, "BlockObjectState"@)
            }
        }),
{
    let one = crate::service::offset_on(memory, module, checker, "_entityRegistry"@)->0;
    let two = crate::service::offset_on(
        memory,
        module,
        registry,
        "_entitiesInInstantiationOrder"@,
    )->0;
    crate::promise::reading::a_field_is_at_its_offset(memory, checker, one, registry);
    crate::promise::reading::a_field_is_at_its_offset(memory, registry, two, entities);
}

/// A list's count and its items are where its class has them, and where the class
/// does not say, where Mono puts them, if what is there reads like a list.
pub proof fn a_list_is_read_where_its_fields_are<M: Memory>(
    memory: &M,
    module: Module,
    list: u64,
    size_field: u32,
    items_field: u32,
    size: i32,
    items: u64,
    capacity: u64,
)
    ensures
        module.class_of(memory, list) matches Some(class) && class.offset("_size"@) == Some(
            size_field,
        ) && class.offset("_items"@) == Some(items_field) ==> list_offsets(memory, module, list)
            == Some((size_field, items_field)),
        module.class_of(memory, list) is None && items != 0 && has_word(memory, list + 0x10, items)
            && has_number(memory, list + 0x18, size) && has_word(memory, items + 0x18, capacity)
            && capacity < 0x8000_0000_0000_0000 ==> list_offsets(memory, module, list) == if 0
            <= size <= capacity && capacity > 0 {
            Some((0x18u32, 0x10u32))
        } else {
            None
        },
{
    what_is_there_is_read(memory, list + 0x10, items, 0, 0);
    what_is_there_is_read(memory, list + 0x18, 0, size, 0);
    what_is_there_is_read(memory, items + 0x18, capacity, 0, 0);
}

/// A static field is in its class's table, at its own offset.
pub proof fn a_static_is_in_its_table(
    module: Module,
    image: Seq<char>,
    name: Seq<char>,
    field: Seq<char>,
    table: u64,
    offset: u32,
)
    requires
        module.named(image, name) matches Some(class) && class.static_table == Some(table)
            && class.offset(field) == Some(offset),
        table + offset < top(),
    ensures
        static_in(module, image, name, field) == Some((table + offset) as u64),
{
}

/// The part of a day that is past is read off the clock's own fields.
pub proof fn a_clock_is_read_where_its_fields_are<M: Memory>(
    memory: &M,
    module: Module,
    clock: Clock,
    sub_day: SubDay,
    hours: i32,
    day: i32,
    night: i32,
    ticks: i32,
)
    requires
        clock.fields.sub_day == Some(sub_day),
        has_number(memory, clock.instance + sub_day.hours_per_tick, hours),
        has_number(memory, clock.instance + sub_day.daytime, day),
        has_number(memory, clock.instance + sub_day.nighttime, night),
        has_number(memory, clock.instance + sub_day.ticks_today, ticks),
    ensures
        lengths_at(memory, clock.instance, sub_day) matches Some(lengths) && lengths.hours_per_tick
            == bits_of(hours) && lengths.daytime == bits_of(day) && lengths.nighttime == bits_of(
            night,
        ),
        lengths_of(memory, clock) matches Some(lengths) ==> (within_of(memory, clock) matches Some(
            within,
        ) && within.ticks == ticks && within.lengths == lengths && within.progress == progress_at(
            memory,
            clock.progress,
        )),
        clock.lengths is Some ==> lengths_of(memory, clock) == clock.lengths,
        clock.lengths is None ==> (lengths_of(memory, clock) is Some <==> !at_most_zero(
            bits_of(hours),
        ) && !sum_at_most_zero(bits_of(day), bits_of(night))),
{
    what_is_there_is_read(memory, clock.instance + sub_day.hours_per_tick, 0, hours, 0);
    what_is_there_is_read(memory, clock.instance + sub_day.daytime, 0, day, 0);
    what_is_there_is_read(memory, clock.instance + sub_day.nighttime, 0, night, 0);
    what_is_there_is_read(memory, clock.instance + sub_day.ticks_today, 0, ticks, 0);
}

/// The clock's fields have these names, and all four are needed.
pub proof fn a_clock_has_these_fields(module: Module, image: Seq<char>, name: Seq<char>)
    ensures
        sub_day_of(module, image, name) is Some <==> {
            &&& module.offset(image, name, "_ticksPassedToday"@) is Some
            &&& module.offset(image, name, "FixedDeltaTimeInHours"@) is Some
            &&& module.offset(image, name, "DaytimeLengthInHours"@) is Some
            &&& module.offset(image, name, "NighttimeLengthInHours"@) is Some
        },
        sub_day_of(module, image, name) matches Some(sub_day) ==> {
            &&& module.offset(image, name, "_ticksPassedToday"@) == Some(sub_day.ticks_today)
            &&& module.offset(image, name, "FixedDeltaTimeInHours"@) == Some(sub_day.hours_per_tick)
            &&& module.offset(image, name, "DaytimeLengthInHours"@) == Some(sub_day.daytime)
            &&& module.offset(image, name, "NighttimeLengthInHours"@) == Some(sub_day.nighttime)
        },
{
}

/// How far through a tick the game is, is read where the service has it, and is
/// nothing where there is none.
pub proof fn progress_is_the_services<M: Memory>(memory: &M, progress: TickProgress, bits: i32)
    requires
        has_number(memory, progress.instance + progress.offset, bits),
    ensures
        progress_at(memory, Some(progress)) == bits_of(bits),
        progress_at(memory, None) == 0,
{
    what_is_there_is_read(memory, progress.instance + progress.offset, 0, bits, 0);
}

/// Of the bits of two numbers: those of the two zeros are equal, others only to
/// themselves, and a sign turns every comparison around.
pub proof fn floats_compare_as_numbers_do(a: u32, b: u32)
    requires
        a < 0x8000_0000,
        b < 0x8000_0000,
        !not_a_number(a),
        !not_a_number(b),
    ensures
        equal(a, b) <==> a == b,
        equal((a + 0x8000_0000) as u32, (b + 0x8000_0000) as u32) <==> a == b,
        equal(a, (b + 0x8000_0000) as u32) <==> a == 0 && b == 0,
        at_most_zero(a) <==> a == 0,
        at_most_zero((a + 0x8000_0000) as u32),
        positive_sum(a, b) <==> a > 0 || b > 0,
        positive_sum(a, (b + 0x8000_0000) as u32) <==> a > b,
        positive_sum((b + 0x8000_0000) as u32, a) <==> a > b,
        !positive_sum((a + 0x8000_0000) as u32, (b + 0x8000_0000) as u32),
        sum_at_most_zero(a, b) <==> a == 0 && b == 0,
        sum_at_most_zero((a + 0x8000_0000) as u32, (b + 0x8000_0000) as u32),
        sum_at_most_zero(a, (b + 0x8000_0000) as u32) <==> a < b || a == b && a < 0x7F80_0000,
{
}

/// What is not a number compares with nothing.
pub proof fn no_number_compares_with_nothing(a: u32, b: u32)
    requires
        not_a_number(a),
    ensures
        !equal(a, b) && !equal(b, a),
        !positive_sum(a, b) && !positive_sum(b, a),
        !at_most_zero(a),
        !sum_at_most_zero(a, b) && !sum_at_most_zero(b, a),
{
}

/// From a run's start on, game time is counted from the day it started, however
/// many ticks pass; and what cannot be counted is said once.
pub proof fn game_time_counts_from_the_start(
    time: GameTime,
    start: u64,
    moments: Seq<Moment>,
    day: u64,
)
    requires
        forall|i: int| 0 <= i < moments.len() ==> (#[trigger] moments[i]) is Tick,
    ensures
        ({
            let begun = after_moments(time, seq![Moment::Begin(Some(start))] + moments);
            &&& begun.baseline == Some(start)
            &&& pushed(begun, true, Some(day)) matches Push::Give { baseline, day: now, .. }
                && baseline == start && now == day
            &&& pushed(begun, false, Some(day)) is Nothing
            &&& pushed(begun, true, None) is Lost || pushed(begun, true, None) is Nothing
            &&& begun.warned_lost ==> pushed(begun, true, None) is Nothing
        }),
    decreases moments.len(),
{
    let first = seq![Moment::Begin(Some(start))];
    let all = first + moments;
    if moments.len() == 0 {
        assert(all =~= first);
        assert(first.drop_last() =~= Seq::<Moment>::empty());
        assert(first.last() == Moment::Begin(Some(start)));
    } else {
        let init = moments.drop_last();
        assert forall|i: int| 0 <= i < init.len() implies (#[trigger] init[i]) is Tick by {
            assert(init[i] == moments[i]);
        }
        game_time_counts_from_the_start(time, start, init, day);
        assert(all.drop_last() =~= first + init);
        assert(all.last() == moments[moments.len() - 1]);
    }
}

} // verus!
