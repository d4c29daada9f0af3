//! The searches, from one place they look in to the next.
use vstd::prelude::*;

use crate::memory::{Memory, MemoryRange};
use crate::note::{Action, Note};
use crate::promise::container::{
    goes_to, is_picked, is_wanted, the_first_container_with_the_clock_is_picked,
};
use crate::promise::reading::{has_word, is_honest, what_is_there_is_read};
use crate::scan::{Scan, DEFAULT_BUDGET};
use crate::singletons::{
    ContainerSearch, ContainerStage, Pick, Picking, Registry, Search, Searching, Wanted,
};
use crate::splitter::{Phase, Scout, Splitter};
use crate::table::{region_of, Identify, ReferenceTable};
use crate::timer::TimerState;
use crate::watch::Sight;

verus! {

/// A search for the container looks in the table first, where there is one that
/// can be read, and sweeps the heap only where it has none that is wanted; that
/// there is none is said only after a sweep, and for certain only where the sweep
/// could read everything.
pub proof fn a_container_is_looked_for_everywhere<M: Memory>(
    search: ContainerSearch,
    memory: &M,
    ranges: Seq<MemoryRange>,
    table: Option<ReferenceTable>,
    after: ContainerSearch,
    table_after: Option<ReferenceTable>,
    result: Searching,
    said: Seq<Note>,
)
    requires
        search.stepped(memory, ranges, table, after, table_after, result, said),
    ensures
        search.stage is Begin ==> (after.stage is Table <==> (table matches Some(t) && region_of(
            ranges,
            t.base,
        ) is Some)) && (after.stage is Table || after.stage is Sweep),
        search.stage is Table ==> after.stage is Table || after.stage is PickHeld
            || after.stage is Sweep,
        search.stage is PickHeld ==> result is Done || after.stage is PickHeld
            || after.stage is Sweep,
        search.stage is Sweep ==> after.stage is Sweep || after.stage is PickSwept,
        search.stage is PickSwept ==> result is Done || after.stage is PickSwept,
        result matches Searching::Done(found) && found.registry is None
            ==> search.stage is PickSwept,
        result matches Searching::Done(found) && found.conclusive ==> search.stage is PickSwept,
        result is Pending ==> after.wanted == search.wanted && after.anchor == search.anchor,
        search.stage is Sweep && after.stage is PickSwept ==> (after.stage matches
            ContainerStage::PickSwept { pick, conclusive, .. } && pick.index == 0 && exists|
            last: Scan,
        | #[trigger]
            is_end_of(last, pick, conclusive)),
{
    if search.stage is Sweep && after.stage is PickSwept {
        if let ContainerStage::Sweep(scan) = search.stage {
            let (next, done) = choose|next: Scan, done: bool|
                {
                    &&& #[trigger] scan.stepped(
                        memory,
                        DEFAULT_BUDGET as int,
                        next,
                        done,
                    )
                    &&& done
                    &&& after.stage matches ContainerStage::PickSwept {
                        pick,
                        conclusive,
                        table_candidates,
                    } && pick.candidates@ == next.found@ && conclusive == (next.stats.bytes_total
                        > 0 && next.stats.bytes_unreadable == 0)
                };
            if let ContainerStage::PickSwept { pick, conclusive, .. } = after.stage {
                assert(is_end_of(next, pick, conclusive));
            }
        }
    }
}

/// Whether a sweep that is over left these candidates, and is as certain of them.
pub open spec fn is_end_of(scan: Scan, pick: Pick, conclusive: bool) -> bool {
    &&& pick.candidates@ == scan.found@
    &&& conclusive <==> scan.stats.bytes_total > 0 && scan.stats.bytes_unreadable == 0
}

/// What comes of a search is what was picked, and a search that picks nothing in
/// the table goes on.
pub proof fn what_is_picked_is_what_is_found<M: Memory>(
    search: ContainerSearch,
    memory: &M,
    ranges: Seq<MemoryRange>,
    table: Option<ReferenceTable>,
    after: ContainerSearch,
    table_after: Option<ReferenceTable>,
    found: Search,
    said: Seq<Note>,
    pick: Pick,
)
    requires
        search.stepped(memory, ranges, table, after, table_after, Searching::Done(found), said),
        search.stage == ContainerStage::PickHeld(pick) || (search.stage matches
            ContainerStage::PickSwept { pick: held, .. } && held == pick),
    ensures
        found.registry is Some ==> exists|next: Pick| #[trigger]
            goes_to(memory, search.wanted, pick, next, Picking::Picked(found.registry->0)),
        found.registry is None ==> exists|next: Pick| #[trigger]
            goes_to(memory, search.wanted, pick, next, Picking::NoneOfThem),
{
    let (next, picking, log) = choose|next: Pick, picking: Picking, log: Seq<Note>|
        {
            &&& #[trigger] pick.stepped(memory, search.wanted, next, picking, log)
            &&& match picking {
                Picking::Pending => false,
                Picking::Picked(registry) => found.registry == Some(registry),
                Picking::NoneOfThem => found.registry is None,
            }
        };
    assert(goes_to(memory, search.wanted, pick, next, picking));
    if found.registry is Some {
        assert(picking == Picking::Picked(found.registry->0));
        assert(goes_to(memory, search.wanted, pick, next, Picking::Picked(found.registry->0)));
    }
}

/// A container that is picked is one that is wanted: not the one just left, and
/// with the clock in it.
pub proof fn a_picked_container_is_wanted<M: Memory>(
    memory: &M,
    wanted: Wanted,
    picks: Seq<Pick>,
    registry: Registry,
)
    requires
        is_honest(memory),
        is_picked(memory, wanted, picks, Picking::Picked(registry)),
    ensures
        is_wanted(memory, wanted, registry.repository),
        wanted.skip != Some(registry.repository),
{
    the_first_container_with_the_clock_is_picked(
        memory,
        wanted,
        picks,
        Picking::Picked(registry),
    );
}

/// A sweep for the table that is over is followed up: where the loader's class is
/// in the metadata, what has the loader in it is told apart, and otherwise the
/// game is gone into without a table.
pub proof fn a_sweep_for_the_table_is_followed_up<M: Memory>(
    splitter: Splitter,
    sight: Sight<M>,
    timer: TimerState,
    after: Splitter,
    asked: Seq<Action>,
    scout: Scout,
    scan: Scan,
    vtable: u64,
)
    requires
        splitter.stepped(sight, timer, after, asked),
        splitter.phase == Phase::SweepForTable(scout, scan),
        has_word(sight.memory, scout.scene.instance as int, vtable),
    ensures
        after.phase is SweepForTable || after.phase is IdentifyTable || after.phase is Enter,
        after.phase is IdentifyTable ==> vtable != 0 && (after.phase matches Phase::IdentifyTable(
            _,
            identify,
        ) && region_of(sight.ranges@, vtable) == Some(identify.metadata) && identify.index == 0
            && identify.counted == 0),
        after.phase is Enter ==> vtable == 0 || region_of(sight.ranges@, vtable) is None,
{
    what_is_there_is_read(sight.memory, scout.scene.instance as int, vtable, 0, 0);
}

/// A table that is told apart is kept, and where there is none the splitter goes
/// on without.
pub proof fn a_table_that_is_told_apart_is_kept<M: Memory>(
    splitter: Splitter,
    sight: Sight<M>,
    timer: TimerState,
    after: Splitter,
    asked: Seq<Action>,
    scout: Scout,
    identify: Identify,
)
    requires
        splitter.stepped(sight, timer, after, asked),
        splitter.phase == Phase::IdentifyTable(scout, identify),
        splitter.table is None,
    ensures
        after.phase is IdentifyTable || after.phase is Enter,
        after.table is Some ==> after.phase is Enter,
        after.table_tries == splitter.table_tries,
{
}

/// A search that is over is judged, after the table has been told apart where
/// there is none and the search came across what may be one.
pub proof fn a_search_that_is_over_is_judged<M: Memory>(
    splitter: Splitter,
    sight: Sight<M>,
    timer: TimerState,
    after: Splitter,
    asked: Seq<Action>,
)
    requires
        splitter.stepped(sight, timer, after, asked),
    ensures
        splitter.phase is Search ==> after.phase is Search || after.phase is IdentifyAfter
            || after.phase is Judge,
        splitter.phase is Search && after.phase is IdentifyAfter ==> after.table is None,
        splitter.phase matches Phase::IdentifyAfter(_, search, _) ==> match after.phase {
            Phase::IdentifyAfter(_, kept, _) => kept == search,
            Phase::Judge(_, kept) => kept == search,
            _ => false,
        },
        splitter.phase matches Phase::Judge(_, search) ==> (after.phase is Watching
            ==> search.registry is Some) && (after.phase is Watching || after.phase is Pause),
{
}

} // verus!
