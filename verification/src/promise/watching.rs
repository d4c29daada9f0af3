//! A game that is watched: what is held of it, and when it is read.
use vstd::prelude::*;

use crate::buildings::OpeningWalk;
use crate::memory::Memory;
use crate::metadata::Module;
use crate::note::Action;
use crate::promise::container::a_refresh_goes_on;
use crate::promise::reading::{has_number, what_is_there_is_read};
use crate::settings::Settings;
use crate::singletons::Refresh;
use crate::table::ReferenceTable;
use crate::timer::TimerState;
use crate::watch::{Sight, Stage, Watch};

verus! {

/// What is watched through an object that is no longer what it was is let go of,
/// and nothing else is.
pub proof fn a_watcher_of_a_freed_object_is_let_go<M: Memory>(watch: Watch, memory: &M, count: i32)
    ensures
        ({
            let after = watch.valid_only(memory);
            &&& watch.unlock matches Some(unlock) ==> after.unlock == if unlock.class.validator.admits(
                memory,
                unlock.instance,
            ) {
                watch.unlock
            } else {
                None
            }
            &&& watch.completion matches Some(completion) ==> after.completion
                == if completion.class.validator.admits(memory, completion.instance) {
                watch.completion
            } else {
                None
            }
            &&& watch.buildings matches Some(buildings) ==> (has_number(
                memory,
                buildings.paths.entities + buildings.paths.size_offset,
                count,
            ) ==> after.buildings == watch.buildings)
            &&& watch.unlock is None ==> after.unlock is None
            &&& watch.completion is None ==> after.completion is None
            &&& watch.buildings is None ==> after.buildings is None
            &&& after.run_start == watch.run_start && after.ended == watch.ended
                && after.run_began == watch.run_began && after.registry == watch.registry
        }),
{
    if let Some(buildings) = watch.buildings {
        what_is_there_is_read(
            memory,
            buildings.paths.entities + buildings.paths.size_offset,
            0,
            count,
            0,
        );
    }
}

/// Nothing is looked up in the container before the game is up, its initializer
/// finished, nor at any but every hundred and twentieth tick, nor once all three
/// are watched.
pub proof fn nothing_is_resolved_before_the_game_is_up<M: Memory>(
    watch: Watch,
    memory: &M,
    module: Module,
    settings: Settings,
    timer: TimerState,
    after: Watch,
    asked: Seq<Action>,
)
    requires
        watch.middled(memory, module, settings, timer, after, asked),
    ensures
        after.stage is Refreshing || after.stage is Describing || after.stage is Top,
        after.stage !is Top ==> {
            &&& after.run_start matches Some(start) && (start.last matches Some(state) && state
                >= 5)
            &&& watch.ticks % 120 == 0
            &&& after.completion is None || after.unlock is None || after.buildings is None
            &&& watch.registry.layout.class.validator.admits(memory, watch.registry.repository)
        },
        after.stage is Top ==> after.ticks == if watch.ticks == u32::MAX {
            0
        } else {
            (watch.ticks + 1) as u32
        },
{
}

/// The other way round: with the game up, what is not watched yet is looked up
/// on every hundred and twentieth tick.
pub proof fn what_is_missing_is_resolved<M: Memory>(
    watch: Watch,
    memory: &M,
    module: Module,
    settings: Settings,
    timer: TimerState,
    after: Watch,
    asked: Seq<Action>,
    state: i32,
)
    requires
        watch.middled(memory, module, settings, timer, after, asked),
        watch.run_start matches Some(start) && has_number(
            memory,
            start.instance + start.offset,
            state,
        ),
        state >= 5,
        watch.ticks % 120 == 0,
        watch.registry.layout.class.validator.admits(memory, watch.registry.repository),
        watch.completion is None || watch.unlock is None || watch.buildings is None,
    ensures
        after.stage is Refreshing || after.stage is Describing,
{
    let start = watch.run_start->0;
    what_is_there_is_read(memory, start.instance + start.offset, 0, state, 0);
    let polled = start.polled(Some(state), start.save_name(memory), timer).0;
    assert(polled.last == Some(state));
    let started = watch.started(memory, settings, timer).0;
    assert(started.run_start == Some(polled));
    assert(started.ticks == watch.ticks);
}

/// What is found done when the run is already under way was done in it, and still
/// counts; what is found done before a run was not.
pub proof fn what_is_found_mid_run_counts<M: Memory>(watch: Watch, memory: &M, module: Module)
    ensures
        ({
            let after = watch.completion_resolved(memory, module).0;
            &&& watch.completion is Some ==> after.completion == watch.completion
            &&& watch.completion is None && watch.run_began ==> (after.completion matches Some(c)
                ==> !c.was_finished_on_arrival)
            &&& watch.completion is None && !watch.run_began ==> after.completion
                == crate::wonder::completion_in(
                memory,
                module,
                watch.event_bus_vtable,
                watch.registry.entries@,
            )
        }),
        ({
            let after = watch.unlock_resolved(memory, module).0;
            &&& watch.unlock is Some ==> after.unlock == watch.unlock
            &&& watch.unlock is None && watch.run_began ==> (after.unlock matches Some(u)
                ==> !u.unlocked_on_arrival)
            &&& watch.unlock is None && !watch.run_began ==> after.unlock
                == crate::wonder::unlock_in(
                memory,
                module,
                watch.event_bus_vtable,
                watch.registry.entries@,
            )
        }),
{
}

/// The same of the buildings: where a run is under way all of them are owed, also
/// those that stand finished; where none is, those that stand finished are not.
pub proof fn buildings_found_mid_run_are_owed<M: Memory>(
    watch: Watch,
    memory: &M,
    walk: OpeningWalk,
    after: Watch,
    asked: Seq<Action>,
)
    requires
        walk.index >= walk.total,
        watch.walked(memory, walk, after, asked),
    ensures
        after.buildings is Some,
        after.stage is Bottom,
        watch.run_began ==> forall|slot: int|
            0 <= slot < 6 ==> !(#[trigger] after.buildings->0.finished@[slot])
                && !after.buildings->0.on_arrival@[slot],
        !watch.run_began ==> after.buildings->0.on_arrival@ == after.buildings->0.finished@,
        after.buildings->0.inspected == walk.total,
{
}

/// What is looked up is looked up in the container as it was last read, once all
/// of it has been.
pub proof fn a_container_is_looked_up_as_last_read<M: Memory>(
    watch: Watch,
    sight: Sight<M>,
    timer: TimerState,
    table: Option<ReferenceTable>,
    after: Watch,
    table_after: Option<ReferenceTable>,
    left: bool,
    asked: Seq<Action>,
    refresh: Refresh,
)
    requires
        watch.stepped(sight, timer, table, after, table_after, left, asked),
        watch.stage == Stage::Refreshing(refresh),
        refresh.wf(),
    ensures
        refresh.index == refresh.references@.len() ==> after.stage is Describing
            && after.registry.entries@ == refresh.entries@ && after.registry.repository
            == watch.registry.repository,
        refresh.index < refresh.references@.len() ==> (after.stage matches Stage::Refreshing(next)
            && next.references@ == refresh.references@ && next.index > refresh.index)
            && after.registry == watch.registry,
        !left,
        asked.len() == 0,
{
    if refresh.index < refresh.references@.len() {
        a_refresh_goes_on(sight.memory, refresh@);
    }
}

} // verus!
