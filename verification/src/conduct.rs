//! What the splitter may ask of the timer, and that it asks nothing else.
//!
//! It runs in LiveSplit for the whole session, including during someone else's
//! run, so what it must not do matters as much as what it does: a run in
//! progress is never restarted, and nothing splits a timer that is not running
//! or for a reason that is turned off.
use vstd::prelude::*;

use crate::attach::Attach;
use crate::buildings::Split;
use crate::locate::{Locate, Located};
use crate::drive::{
    all_performed, driven, is_game, is_new_search, only_searched, performed, reaches_timer,
    settings_of, stepped_once, went, Drive, Life,
};
use crate::memory::{FakeProcess, Memory, MemoryRange};
use crate::note::{logged, Action, Note};
use crate::run_start::{binding, RunStart};
use crate::settings::Settings;
use crate::singletons::{ContainerSearch, Searching};
use crate::splitter::{goes_on, leaves, lined, Phase, Scout, Splitter};
use crate::table::{Identify, ReferenceTable};
use crate::timer::{after_all, TimerEvent, TimerState};
use crate::watch::{ending, splitting, splitting_all, starting, unlocking, Sight, Stage, Watch};
use crate::wonder::WonderUnlock;
use crate::world::World;

verus! {

/// The state that what is asked leaves the timer in.
pub open spec fn state_after(timer: TimerState, asked: Seq<Action>) -> TimerState
    decreases asked.len(),
{
    if asked.len() == 0 {
        timer
    } else {
        match asked.last() {
            Action::Start => TimerState::Running,
            _ => state_after(timer, asked.drop_last()),
        }
    }
}

/// Whether a note says why a split is due, and that reason is turned on.
pub open spec fn warrants(said: Action, settings: Settings) -> bool {
    match said {
        Action::Log(Note::BuildingSplit { split }) => settings.allows(split),
        Action::Log(Note::WonderSplit) => settings.unlock_wonder,
        Action::Log(Note::RunEnd) => settings.congratulations_screen,
        _ => false,
    }
}

/// Whether all that is asked is in order: the timer is started only where it is
/// not running and starting is turned on, and split only where it is running
/// and what was just said is a reason that is turned on.
pub open spec fn is_proper(asked: Seq<Action>, settings: Settings, timer: TimerState) -> bool
    decreases asked.len(),
{
    asked.len() == 0 || {
        let before = asked.drop_last();
        &&& is_proper(before, settings, timer)
        &&& match asked.last() {
            Action::Start => state_after(timer, before) is NotRunning && settings.start,
            Action::Split => state_after(timer, before) is Running && before.len() > 0 && warrants(
                before.last(),
                settings,
            ),
            _ => true,
        }
    }
}

/// Whether nothing is asked of the timer at all.
pub open spec fn is_quiet(asked: Seq<Action>) -> bool {
    forall|i: int| 0 <= i < asked.len() ==> (#[trigger] asked[i]) !is Start && asked[i] !is Split
}

proof fn lemma_quiet(asked: Seq<Action>, settings: Settings, timer: TimerState)
    requires
        is_quiet(asked),
    ensures
        is_proper(asked, settings, timer),
        state_after(timer, asked) == timer,
    decreases asked.len(),
{
    if asked.len() > 0 {
        let before = asked.drop_last();
        assert forall|i: int| 0 <= i < before.len() implies (#[trigger] before[i]) !is Start
            && before[i] !is Split by {
            assert(before[i] == asked[i]);
        }
        lemma_quiet(before, settings, timer);
        assert(asked.last() == asked[asked.len() - 1]);
    }
}

proof fn lemma_both(one: Seq<Action>, two: Seq<Action>, settings: Settings, timer: TimerState)
    requires
        is_proper(one, settings, timer),
        is_proper(two, settings, state_after(timer, one)),
    ensures
        is_proper(one + two, settings, timer),
        state_after(timer, one + two) == state_after(state_after(timer, one), two),
    decreases two.len(),
{
    if two.len() == 0 {
        assert(one + two =~= one);
    } else {
        let all = one + two;
        assert(all.drop_last() =~= one + two.drop_last());
        assert(all.last() == two.last());
        lemma_both(one, two.drop_last(), settings, timer);
        if two.drop_last().len() > 0 {
            assert((one + two.drop_last()).last() == two.drop_last().last());
        }
    }
}

proof fn lemma_quiet_both(one: Seq<Action>, two: Seq<Action>)
    requires
        is_quiet(one),
        is_quiet(two),
    ensures
        is_quiet(one + two),
{
    let all = one + two;
    assert forall|i: int| 0 <= i < all.len() implies (#[trigger] all[i]) !is Start
        && all[i] !is Split by {
        if i < one.len() {
            assert(all[i] == one[i]);
        } else {
            assert(all[i] == two[i - one.len()]);
        }
    }
}

proof fn lemma_logged(notes: Seq<Note>)
    ensures
        is_quiet(logged(notes)),
{
}

proof fn lemma_lined(lines: Seq<String>)
    ensures
        is_quiet(lined(lines)),
{
}

proof fn lemma_starting(settings: Settings, timer: TimerState)
    ensures
        is_proper(starting(settings, timer).1, settings, timer),
        state_after(timer, starting(settings, timer).1) == starting(settings, timer).0,
{
    let asked = starting(settings, timer).1;
    let logged_start = seq![Action::Log(Note::RunStarted)];
    if settings.start && timer is NotRunning {
        assert(asked.drop_last() =~= logged_start);
        lemma_quiet(logged_start, settings, timer);
    } else {
        lemma_quiet(asked, settings, timer);
    }
}

/// A reason said and the split it warrants.
proof fn lemma_split(said: Action, settings: Settings, timer: TimerState)
    requires
        warrants(said, settings),
        timer is Running,
    ensures
        is_proper(seq![said, Action::Split], settings, timer),
        state_after(timer, seq![said, Action::Split]) == timer,
{
    let asked = seq![said, Action::Split];
    let one = seq![said];
    assert(asked.drop_last() =~= one);
    lemma_quiet(one, settings, timer);
}

proof fn lemma_splitting(split: Split, settings: Settings, timer: TimerState)
    ensures
        is_proper(splitting(split, settings, timer), settings, timer),
        state_after(timer, splitting(split, settings, timer)) == timer,
{
    if settings.allows(split) && timer is Running {
        lemma_split(Action::Log(Note::BuildingSplit { split }), settings, timer);
    } else {
        lemma_quiet(splitting(split, settings, timer), settings, timer);
    }
}

proof fn lemma_splitting_all(splits: Seq<Split>, settings: Settings, timer: TimerState)
    ensures
        is_proper(splitting_all(splits, settings, timer), settings, timer),
        state_after(timer, splitting_all(splits, settings, timer)) == timer,
    decreases splits.len(),
{
    if splits.len() == 0 {
        lemma_quiet(splitting_all(splits, settings, timer), settings, timer);
    } else {
        lemma_splitting_all(splits.drop_last(), settings, timer);
        lemma_splitting(splits.last(), settings, timer);
        lemma_both(
            splitting_all(splits.drop_last(), settings, timer),
            splitting(splits.last(), settings, timer),
            settings,
            timer,
        );
    }
}

proof fn lemma_unlocking(unlocked: bool, settings: Settings, timer: TimerState)
    ensures
        is_proper(unlocking(unlocked, settings, timer), settings, timer),
        state_after(timer, unlocking(unlocked, settings, timer)) == timer,
{
    if unlocked && settings.unlock_wonder && timer is Running {
        lemma_split(Action::Log(Note::WonderSplit), settings, timer);
    } else {
        lemma_quiet(unlocking(unlocked, settings, timer), settings, timer);
    }
}

proof fn lemma_ending(
    ends: bool,
    unlock: Option<WonderUnlock>,
    settings: Settings,
    timer: TimerState,
)
    ensures
        is_proper(ending(ends, unlock, settings, timer), settings, timer),
        state_after(timer, ending(ends, unlock, settings, timer)) == timer,
{
    if ends && settings.congratulations_screen && timer is Running {
        let unseen = unlock matches Some(u) && !u.fired && !u.unlocked_on_arrival;
        let warned = if unseen {
            seq![Action::Log(Note::WonderNeverSeen)]
        } else {
            Seq::empty()
        };
        let last = seq![Action::Log(Note::RunEnd), Action::Split];
        lemma_quiet(warned, settings, timer);
        lemma_split(Action::Log(Note::RunEnd), settings, timer);
        lemma_both(warned, last, settings, timer);
    } else {
        lemma_quiet(ending(ends, unlock, settings, timer), settings, timer);
    }
}

/// What polling a run start says is only said.
pub(crate) proof fn lemma_polled(
    start: RunStart,
    state: Option<i32>,
    save: Option<i32>,
    timer: TimerState,
)
    ensures
        is_quiet(start.polled(state, save, timer).2),
{
}

proof fn lemma_bottomed<M: Memory>(
    watch: Watch,
    memory: &M,
    module: crate::metadata::Module,
    settings: Settings,
    timer: TimerState,
    after: Watch,
    asked: Seq<Action>,
)
    requires
        watch.bottomed(memory, module, settings, timer, after, asked),
    ensures
        is_proper(asked, settings, timer),
{
    let (mid, fired) = choose|mid: Watch, fired: Seq<Split>|
        {
            &&& #[trigger] watch.valid_only(memory).built(memory, mid, fired)
            &&& {
                let (polled, unlocked) = mid.unlock_polled(memory, module);
                let (last, ends, notes) = polled.completion_polled(memory, module);
                asked == splitting_all(fired, settings, timer) + unlocking(
                    unlocked,
                    settings,
                    timer,
                ) + logged(notes) + ending(ends, polled.unlock, settings, timer)
            }
        };
    let (polled, unlocked) = mid.unlock_polled(memory, module);
    let (last, ends, notes) = polled.completion_polled(memory, module);
    let one = splitting_all(fired, settings, timer);
    let two = unlocking(unlocked, settings, timer);
    let three = logged(notes);
    let four = ending(ends, polled.unlock, settings, timer);
    lemma_splitting_all(fired, settings, timer);
    lemma_unlocking(unlocked, settings, timer);
    lemma_logged(notes);
    lemma_quiet(three, settings, timer);
    lemma_ending(ends, polled.unlock, settings, timer);
    lemma_both(one, two, settings, timer);
    lemma_both(one + two, three, settings, timer);
    lemma_both(one + two + three, four, settings, timer);
}

proof fn lemma_started<M: Memory>(
    watch: Watch,
    memory: &M,
    settings: Settings,
    timer: TimerState,
)
    ensures
        is_proper(watch.started(memory, settings, timer).2, settings, timer),
        state_after(timer, watch.started(memory, settings, timer).2) == watch.started(
            memory,
            settings,
            timer,
        ).1,
{
    let asked = watch.started(memory, settings, timer).2;
    match watch.run_start {
        None => {
            lemma_quiet(asked, settings, timer);
        },
        Some(start) => {
            let (after, starts, said) = start.polled(
                start.state(memory),
                start.save_name(memory),
                timer,
            );
            lemma_polled(start, start.state(memory), start.save_name(memory), timer);
            if starts {
                let cleared = seq![Action::ClearStatus];
                lemma_quiet_both(said, cleared);
                lemma_quiet(said + cleared, settings, timer);
                lemma_starting(settings, timer);
                lemma_both(said + cleared, starting(settings, timer).1, settings, timer);
            } else {
                lemma_quiet(asked, settings, timer);
            }
        },
    }
}

proof fn lemma_middled<M: Memory>(
    watch: Watch,
    memory: &M,
    module: crate::metadata::Module,
    settings: Settings,
    timer: TimerState,
    after: Watch,
    asked: Seq<Action>,
)
    requires
        watch.middled(memory, module, settings, timer, after, asked),
    ensures
        is_proper(asked, settings, timer),
{
    let (polled, state, starts) = watch.started(memory, settings, timer);
    let (dated, days) = polled.dated(memory);
    lemma_started(watch, memory, settings, timer);
    lemma_quiet(days, settings, state);
    lemma_both(starts, days, settings, timer);
    if !dated.resolves(memory) {
        let rest = choose|rest: Seq<Action>|
            {
                &&& #[trigger] dated.bottomed(memory, module, settings, state, after, rest)
                &&& asked == starts + days + rest
            };
        lemma_bottomed(dated, memory, module, settings, state, after, rest);
        lemma_both(starts + days, rest, settings, timer);
    }
}

proof fn lemma_topped<M: Memory>(
    watch: Watch,
    sight: Sight<M>,
    timer: TimerState,
    table: Option<ReferenceTable>,
    after: Watch,
    table_after: Option<ReferenceTable>,
    left: bool,
    asked: Seq<Action>,
)
    requires
        watch.topped(sight, timer, table, after, table_after, left, asked),
    ensures
        is_proper(asked, sight.settings, timer),
{
    let settings = sight.settings;
    let memory = sight.memory;
    let module = *sight.module;
    let flag = watch.scene.flag(memory);
    let told = Watch { scene: watch.scene.told(flag), ..watch };
    let (checked, said) = told.checked(memory);
    let target = crate::run_start::initializer_in(module, watch.event_bus_vtable);
    lemma_quiet(said, settings, timer);
    if flag == Some(true) && !watch.scene.loading {
        lemma_quiet(asked, settings, timer);
    } else if checked.seeks_start() && target is Some {
        let notes = choose|notes: Seq<Note>| asked == said + #[trigger] logged(notes);
        lemma_logged(notes);
        lemma_quiet(logged(notes), settings, timer);
        lemma_both(said, logged(notes), settings, timer);
    } else {
        let rest = choose|rest: Seq<Action>|
            {
                &&& #[trigger] checked.middled(memory, module, settings, timer, after, rest)
                &&& asked == said + rest
            };
        lemma_middled(checked, memory, module, settings, timer, after, rest);
        lemma_both(said, rest, settings, timer);
    }
}

pub(crate) proof fn lemma_sought<M: Memory>(
    watch: Watch,
    sight: Sight<M>,
    locate: Locate,
    offset: u32,
    table: Option<ReferenceTable>,
    after: Watch,
    table_after: Option<ReferenceTable>,
    asked: Seq<Action>,
)
    requires
        watch.found(sight, locate, offset, table, after, table_after, asked),
    ensures
        is_quiet(asked),
{
    let (next, located, notes) = choose|next: Locate, located: Located, notes: Seq<Note>|
        {
            &&& #[trigger] locate.stepped(
                sight.memory,
                sight.ranges@,
                table,
                next,
                table_after,
                located,
                notes,
            )
            &&& match located {
                Located::Pending => asked == logged(notes),
                Located::Done(found) => match found.first() {
                    Some(instance) => {
                        let start = crate::run_start::bound(
                            *sight.module,
                            locate.class,
                            offset,
                            instance,
                            watch.expect_new_game,
                            watch.watched_load,
                        );
                        asked == logged(notes) + binding(start)
                    },
                    None => asked == logged(notes),
                },
            }
        };
    lemma_found(asked, notes);
}

pub(crate) proof fn lemma_resolved<M: Memory>(
    watch: Watch,
    memory: &M,
    module: crate::metadata::Module,
    after: Watch,
    asked: Seq<Action>,
)
    requires
        watch.resolved(memory, module, after, asked),
    ensures
        is_quiet(asked),
{
    let (completing, one) = watch.completion_resolved(memory, module);
    let (unlocked, two) = completing.unlock_resolved(memory, module);
    let three = choose|three: Seq<Note>|
        {
            &&& #[trigger] unlocked.buildings_resolved(memory, module, after, three)
            &&& asked == logged(one + two + three)
        };
    lemma_logged(one + two + three);
}

pub(crate) proof fn lemma_walked<M: Memory>(
    watch: Watch,
    memory: &M,
    walk: crate::buildings::OpeningWalk,
    after: Watch,
    asked: Seq<Action>,
)
    requires
        watch.walked(memory, walk, after, asked),
    ensures
        is_quiet(asked),
{
    if walk.index >= walk.total {
        let found = choose|found: crate::buildings::Buildings|
            {
                let watching = Note::WatchingEntities {
                    total: walk.total,
                    watched: walk.buildings.watched@.len() as usize,
                    finished: found.finished,
                };
                &&& #[trigger] walk.ends_as(memory, found)
                &&& asked == if watch.run_began {
                    logged(seq![watching] + found.mid_run_note())
                } else {
                    logged(seq![watching])
                }
            };
        let watching = Note::WatchingEntities {
            total: walk.total,
            watched: walk.buildings.watched@.len() as usize,
            finished: found.finished,
        };
        lemma_logged(seq![watching] + found.mid_run_note());
        lemma_logged(seq![watching]);
    }
}

/// A tick of watching asks only what is in order.
pub proof fn a_watch_is_proper<M: Memory>(
    watch: Watch,
    sight: Sight<M>,
    timer: TimerState,
    table: Option<ReferenceTable>,
    after: Watch,
    table_after: Option<ReferenceTable>,
    left: bool,
    asked: Seq<Action>,
)
    requires
        watch.stepped(sight, timer, table, after, table_after, left, asked),
    ensures
        is_proper(asked, sight.settings, timer),
{
    let settings = sight.settings;
    let memory = sight.memory;
    let module = *sight.module;
    match watch.stage {
        Stage::Top => lemma_topped(watch, sight, timer, table, after, table_after, left, asked),
        Stage::Finding(locate, offset) => {
            lemma_sought(
                watch.at(Stage::Top),
                sight,
                locate,
                offset,
                table,
                after,
                table_after,
                asked,
            );
            lemma_quiet(asked, settings, timer);
        },
        Stage::Middle => lemma_middled(watch, memory, module, settings, timer, after, asked),
        Stage::Refreshing(_) => lemma_quiet(asked, settings, timer),
        Stage::Describing => lemma_quiet(asked, settings, timer),
        Stage::Resolving => {
            lemma_resolved(watch, memory, module, after, asked);
            lemma_quiet(asked, settings, timer);
        },
        Stage::Walking(walk) => {
            lemma_walked(watch.at(Stage::Top), memory, walk, after, asked);
            lemma_quiet(asked, settings, timer);
        },
        _ => lemma_bottomed(watch, memory, module, settings, timer, after, asked),
    }
}

/// Notes, and perhaps a run start bound behind them, are only said.
proof fn lemma_found(asked: Seq<Action>, notes: Seq<Note>)
    requires
        asked == logged(notes) || exists|start: RunStart| asked == logged(notes) + #[trigger]
            binding(start),
    ensures
        is_quiet(asked),
{
    lemma_logged(notes);
    if asked != logged(notes) {
        let start = choose|start: RunStart| asked == logged(notes) + #[trigger] binding(start);
        lemma_quiet_both(logged(notes), binding(start));
    }
}

proof fn lemma_found_start<M: Memory>(
    splitter: Splitter,
    sight: Sight<M>,
    locate: Locate,
    offset: u32,
    new_game: Option<bool>,
    watched_load: bool,
    next: Option<Locate>,
    start: Option<RunStart>,
    table_after: Option<ReferenceTable>,
    asked: Seq<Action>,
)
    requires
        splitter.found_start(
            sight,
            locate,
            offset,
            new_game,
            watched_load,
            next,
            start,
            table_after,
            asked,
        ),
    ensures
        is_quiet(asked),
{
    let (mid, located, notes) = choose|mid: Locate, located: Located, notes: Seq<Note>|
        {
            &&& #[trigger] locate.stepped(
                sight.memory,
                sight.ranges@,
                splitter.table,
                mid,
                table_after,
                located,
                notes,
            )
            &&& match located {
                Located::Pending => asked == logged(notes),
                Located::Done(found) => match found.first() {
                    Some(_) => asked == logged(notes) + binding(start->0),
                    None => asked == logged(notes),
                },
            }
        };
    lemma_found(asked, notes);
}

proof fn lemma_sought_start<M: Memory>(
    splitter: Splitter,
    sight: Sight<M>,
    class: crate::service::Locatable,
    offset: u32,
    require_pre_ui: bool,
    may_sweep: bool,
    locate: Locate,
    table_after: Option<ReferenceTable>,
    asked: Seq<Action>,
)
    requires
        splitter.sought_start(
            sight.ranges@,
            class,
            offset,
            require_pre_ui,
            may_sweep,
            locate,
            table_after,
            asked,
        ),
    ensures
        is_quiet(asked),
{
    let notes = choose|notes: Seq<Note>| asked == #[trigger] logged(notes);
    lemma_logged(notes);
}

pub(crate) proof fn lemma_loaded<M: Memory>(
    splitter: Splitter,
    sight: Sight<M>,
    scout: Scout,
    after: Splitter,
    asked: Seq<Action>,
)
    requires
        splitter.loaded(sight, scout, after, asked),
    ensures
        is_quiet(asked),
{
    let flag = scout.scene.flag(sight.memory);
    if flag == Some(true) {
        let watching = scout.observing(sight.memory, *sight.module);
        let target = crate::run_start::initializer_in(
            *sight.module,
            scout.session.event_bus_vtable,
        );
        if scout.run_start is None && watching.scene.loaded is Game && target is Some {
            match after.phase {
                Phase::BindEarly(_, locate, _) => {
                    lemma_sought_start(
                        splitter,
                        sight,
                        (target->0).0,
                        (target->0).1,
                        true,
                        splitter.table is None,
                        locate,
                        after.table,
                        asked,
                    );
                },
                _ => {},
            }
        }
    }
}

pub(crate) proof fn lemma_started_after<M: Memory>(
    splitter: Splitter,
    sight: Sight<M>,
    scout: Scout,
    after: Splitter,
    asked: Seq<Action>,
)
    requires
        splitter.started_after(sight, scout, after, asked),
    ensures
        is_quiet(asked),
{
    let target = crate::run_start::initializer_in(*sight.module, scout.session.event_bus_vtable);
    if scout.run_start is None && !scout.scene.loaded.no_game() && target is Some {
        match after.phase {
            Phase::FindStart(_, locate, _) => {
                lemma_sought_start(
                    splitter,
                    sight,
                    (target->0).0,
                    (target->0).1,
                    false,
                    true,
                    locate,
                    after.table,
                    asked,
                );
            },
            _ => {},
        }
    }
}

pub(crate) proof fn lemma_bound<M: Memory>(
    splitter: Splitter,
    sight: Sight<M>,
    scout: Scout,
    locate: Locate,
    offset: u32,
    after: Splitter,
    asked: Seq<Action>,
)
    requires
        splitter.bound_early(sight, scout, locate, offset, after, asked) || splitter.bound_late(
            sight,
            scout,
            locate,
            offset,
            after,
            asked,
        ),
    ensures
        is_quiet(asked),
{
    let new_game = scout.scene.loaded.newness();
    if splitter.bound_early(sight, scout, locate, offset, after, asked) {
        let (next, start) = choose|next: Option<Locate>, start: Option<RunStart>| #[trigger]
            splitter.found_start(
                sight,
                locate,
                offset,
                new_game,
                true,
                next,
                start,
                after.table,
                asked,
            );
        lemma_found_start(
            splitter,
            sight,
            locate,
            offset,
            new_game,
            true,
            next,
            start,
            after.table,
            asked,
        );
    } else {
        let observed = scout.scene.observed;
        let (next, start) = choose|next: Option<Locate>, start: Option<RunStart>| #[trigger]
            splitter.found_start(
                sight,
                locate,
                offset,
                new_game,
                observed,
                next,
                start,
                after.table,
                asked,
            );
        lemma_found_start(
            splitter,
            sight,
            locate,
            offset,
            new_game,
            observed,
            next,
            start,
            after.table,
            asked,
        );
    }
}

pub(crate) proof fn lemma_loader<M: Memory>(
    splitter: Splitter,
    sight: Sight<M>,
    session: crate::splitter::Session,
    again: bool,
    locate: Locate,
    offset: u32,
    after: Splitter,
    asked: Seq<Action>,
)
    requires
        splitter.found_loader(sight, session, again, locate, offset, after, asked),
    ensures
        is_quiet(asked),
{
    let (next, located, notes) = choose|next: Locate, located: Located, notes: Seq<Note>|
        {
            &&& #[trigger] locate.stepped(
                sight.memory,
                sight.ranges@,
                splitter.table,
                next,
                after.table,
                located,
                notes,
            )
            &&& match located {
                Located::Pending => asked == logged(notes),
                Located::Done(found) => match found.first() {
                    None => asked == logged(notes),
                    Some(_) => after.phase matches Phase::Load(scout) && asked == logged(
                        notes + crate::splitter::loader_notes(scout.scene, again),
                    ),
                },
            }
        };
    lemma_logged(notes);
    match after.phase {
        Phase::Load(scout) => {
            lemma_logged(notes + crate::splitter::loader_notes(scout.scene, again));
        },
        _ => {},
    }
}

proof fn lemma_swept<M: Memory>(
    splitter: Splitter,
    sight: Sight<M>,
    scout: Scout,
    scan: crate::scan::Scan,
    after: Splitter,
    asked: Seq<Action>,
)
    requires
        splitter.swept_for_table(sight, scout, scan, after, asked),
    ensures
        is_quiet(asked),
{
    let anchor = scout.scene.instance;
    let (next, done) = choose|next: crate::scan::Scan, done: bool|
        {
            &&& #[trigger] scan.stepped(
                sight.memory,
                crate::scan::DEFAULT_BUDGET as int,
                next,
                done,
            )
            &&& if !done {
                asked == Seq::<Action>::empty()
            } else {
                let counted = Note::TableReferences {
                    count: next.found@.len() as usize,
                    anchor,
                };
                asked == logged(seq![counted]) || asked == logged(
                    seq![counted] + splitter.given_up(),
                )
            }
        };
    let counted = Note::TableReferences { count: next.found@.len() as usize, anchor };
    lemma_logged(seq![counted]);
    lemma_logged(seq![counted] + splitter.given_up());
}

proof fn lemma_identified<M: Memory>(
    splitter: Splitter,
    sight: Sight<M>,
    scout: Scout,
    identify: Identify,
    after: Splitter,
    asked: Seq<Action>,
)
    requires
        splitter.table_identified(sight, scout, identify, after, asked),
    ensures
        is_quiet(asked),
{
    let (next, notes) = choose|next: Option<Identify>, notes: Seq<Note>|
        {
            &&& #[trigger] splitter.identified(sight, identify, next, after.table, notes)
            &&& asked == logged(notes) || asked == logged(notes + splitter.given_up())
        };
    lemma_logged(notes);
    lemma_logged(notes + splitter.given_up());
}

proof fn lemma_after_identified<M: Memory>(
    splitter: Splitter,
    sight: Sight<M>,
    scout: Scout,
    search: crate::singletons::Search,
    identify: Identify,
    after: Splitter,
    asked: Seq<Action>,
)
    requires
        splitter.after_identified(sight, scout, search, identify, after, asked),
    ensures
        is_quiet(asked),
{
    let (next, notes) = choose|next: Option<Identify>, notes: Seq<Note>|
        {
            &&& #[trigger] splitter.identified(sight, identify, next, after.table, notes)
            &&& asked == logged(notes)
        };
    lemma_logged(notes);
}

proof fn lemma_searched<M: Memory>(
    splitter: Splitter,
    sight: Sight<M>,
    scout: Scout,
    search: ContainerSearch,
    after: Splitter,
    asked: Seq<Action>,
)
    requires
        splitter.searched(sight, scout, search, after, asked),
    ensures
        is_quiet(asked),
{
    let (next, searching, notes) = choose|
        next: ContainerSearch,
        searching: Searching,
        notes: Seq<Note>,
    |
        {
            &&& #[trigger] search.stepped(
                sight.memory,
                sight.ranges@,
                splitter.table,
                next,
                after.table,
                searching,
                notes,
            )
            &&& asked == logged(notes)
        };
    lemma_logged(notes);
}

proof fn lemma_judged(
    splitter: Splitter,
    module: crate::metadata::Module,
    scout: Scout,
    search: crate::singletons::Search,
    after: Splitter,
    asked: Seq<Action>,
)
    requires
        splitter.judged(module, scout, search, after, asked),
    ensures
        is_quiet(asked),
{
    match search.registry {
        None => {
            let (empty, notes) = splitter.came_up_empty(scout, search.conclusive);
            lemma_logged(notes);
        },
        Some(registry) => {
            let clock = scout.session.clock;
            match crate::singletons::instance_of(registry.entries@, clock.vtable) {
                None => {
                    lemma_logged(seq![Note::ContainerLostClock]);
                },
                Some(instance) => {
                    let said = seq![Note::ServiceAt { name: clock.name, address: instance }];
                    let rest = choose|rest: Seq<Action>|
                        {
                            &&& #[trigger] splitter.probing(module, rest)
                            &&& asked == logged(said) + rest
                        };
                    lemma_logged(said);
                    if !splitter.probed {
                        let tail = if crate::probe::all_resolved(module) {
                            Seq::empty()
                        } else {
                            seq![Action::Warn(crate::note::Warning::VersionDoubtful)]
                        };
                        let lines = choose|lines: Seq<String>| rest == #[trigger] lined(lines)
                            + tail;
                        lemma_lined(lines);
                        assert(is_quiet(tail));
                        lemma_quiet_both(lined(lines), tail);
                    }
                    lemma_quiet_both(logged(said), rest);
                },
            }
        },
    }
}

pub(crate) proof fn lemma_scouted<M: Memory>(
    splitter: Splitter,
    sight: Sight<M>,
    scout: Scout,
    after: Splitter,
    asked: Seq<Action>,
)
    requires
        splitter.scouted(sight, scout, after, asked),
    ensures
        is_quiet(asked),
{
    let here = splitter.at(Phase::Begin);
    match splitter.phase {
        Phase::SweepForTable(_, scan) => lemma_swept(here, sight, scout, scan, after, asked),
        Phase::IdentifyTable(_, identify) => lemma_identified(
            here,
            sight,
            scout,
            identify,
            after,
            asked,
        ),
        Phase::Search(_, search) => lemma_searched(here, sight, scout, search, after, asked),
        Phase::IdentifyAfter(_, search, identify) => lemma_after_identified(
            here,
            sight,
            scout,
            search,
            identify,
            after,
            asked,
        ),
        Phase::Judge(_, search) => lemma_judged(here, *sight.module, scout, search, after, asked),
        _ => {},
    }
}

proof fn lemma_scout_polled<M: Memory>(
    scout: Scout,
    memory: &M,
    settings: Settings,
    timer: TimerState,
)
    ensures
        is_proper(scout.polled(memory, settings, timer).1, settings, timer),
{
    let asked = scout.polled(memory, settings, timer).1;
    match scout.run_start {
        Some(start) => {
            let (after, starts, said) = start.polled(
                start.state(memory),
                start.save_name(memory),
                timer,
            );
            lemma_polled(start, start.state(memory), start.save_name(memory), timer);
            lemma_quiet(said, settings, timer);
            if starts {
                lemma_starting(settings, timer);
                lemma_both(said, starting(settings, timer).1, settings, timer);
            }
        },
        None => lemma_quiet(asked, settings, timer),
    }
}

proof fn lemma_watched<M: Memory>(
    splitter: Splitter,
    sight: Sight<M>,
    timer: TimerState,
    session: crate::splitter::Session,
    watch: Watch,
    after: Splitter,
    asked: Seq<Action>,
)
    requires
        splitter.watched(sight, timer, session, watch, after, asked),
    ensures
        is_proper(asked, sight.settings, timer),
{
    let (next, left, said) = choose|next: Watch, left: bool, said: Seq<Action>|
        {
            &&& #[trigger] watch.stepped(
                sight,
                timer,
                splitter.table,
                next,
                after.table,
                left,
                said,
            )
            &&& asked == said || asked == said.push(Action::Log(Note::SceneLoading)) || asked
                == said.push(Action::Log(Note::SceneLoaderGone))
        };
    a_watch_is_proper(watch, sight, timer, splitter.table, next, after.table, left, said);
    if asked != said {
        assert(asked.drop_last() =~= said);
    }
}

/// Whatever the game's memory holds, a step of the splitter asks only what is in
/// order: a running timer is never started again, and no timer is split that is
/// not running, or for a reason that is turned off.
pub proof fn the_timer_is_driven_properly<M: Memory>(
    splitter: Splitter,
    sight: Sight<M>,
    timer: TimerState,
    after: Splitter,
    asked: Seq<Action>,
)
    requires
        splitter.stepped(sight, timer, after, asked),
    ensures
        is_proper(asked, sight.settings, timer),
{
    let here = splitter.at(Phase::Begin);
    let settings = sight.settings;
    match splitter.scouting() {
        Some(scout) => {
            let (polled, said) = scout.polled(sight.memory, settings, timer);
            let rest = choose|rest: Seq<Action>|
                {
                    &&& #[trigger] splitter.scouted(sight, polled, after, rest)
                    &&& asked == said + rest
                };
            lemma_scout_polled(scout, sight.memory, settings, timer);
            lemma_scouted(splitter, sight, polled, after, rest);
            lemma_quiet(rest, settings, state_after(timer, said));
            lemma_both(said, rest, settings, timer);
        },
        None => match splitter.phase {
            Phase::FindLoader(session, again, locate, offset) => {
                lemma_loader(here, sight, session, again, locate, offset, after, asked);
                lemma_quiet(asked, settings, timer);
            },
            Phase::Load(scout) => {
                lemma_loaded(here, sight, scout, after, asked);
                lemma_quiet(asked, settings, timer);
            },
            Phase::BindEarly(scout, locate, offset) => {
                lemma_bound(here, sight, scout, locate, offset, after, asked);
                lemma_quiet(asked, settings, timer);
            },
            Phase::Loaded(scout) => {
                lemma_started_after(here, sight, scout, after, asked);
                lemma_quiet(asked, settings, timer);
            },
            Phase::FindStart(scout, locate, offset) => {
                lemma_bound(here, sight, scout, locate, offset, after, asked);
                lemma_quiet(asked, settings, timer);
            },
            Phase::Watching(session, watch) => lemma_watched(
                here,
                sight,
                timer,
                session,
                watch,
                after,
                asked,
            ),
            _ => lemma_quiet(asked, settings, timer),
        },
    }
}

/// Whether a record of what the timer was told is in order: every start from a
/// timer that was not running, every split of one that was.
pub open spec fn is_clean(events: Seq<TimerEvent>) -> bool
    decreases events.len(),
{
    events.len() == 0 || {
        let before = events.drop_last();
        let state = after_all(TimerState::NotRunning, before);
        &&& is_clean(before)
        &&& match events.last() {
            TimerEvent::Start => state is NotRunning,
            TimerEvent::Split => state is Running,
            _ => true,
        }
    }
}

/// Whether a timer's record is in order, and its state what the record makes it.
pub open spec fn is_sound<M: Memory>(world: World<M>) -> bool {
    &&& is_clean(world.timer.events@)
    &&& world.timer.state == after_all(TimerState::NotRunning, world.timer.events@)
}

proof fn lemma_performed<M: Memory>(
    before: World<M>,
    asked: Seq<Action>,
    world: World<M>,
    settings: Settings,
)
    requires
        all_performed(before, asked, world),
        is_proper(asked, settings, before.timer.state),
        is_sound(before),
    ensures
        is_sound(world),
        world.timer.state == state_after(before.timer.state, asked),
    decreases asked.len(),
{
    if asked.len() > 0 {
        let init = asked.drop_last();
        let last = asked.last();
        let mid = choose|mid: World<M>|
            {
                &&& all_performed(before, init, mid)
                &&& #[trigger] performed(mid, last, world)
            };
        lemma_performed(before, init, mid, settings);
        if reaches_timer(last) {
            let events = world.timer.events@;
            assert(events.drop_last() == mid.timer.events@);
        }
    }
}

proof fn lemma_once<M: Memory>(
    before: World<M>,
    process: FakeProcess<M>,
    splitter: Splitter,
    next: Splitter,
    world: World<M>,
)
    requires
        stepped_once(before, process, splitter, next, world),
        is_sound(before),
    ensures
        is_sound(world),
{
    let settings = settings_of(before);
    let timer = before.timer.state;
    let (ranges, module, asked) = choose|
        ranges: &[MemoryRange],
        module: crate::metadata::Module,
        asked: Seq<Action>,
    |
        {
            &&& ranges@ == process.ranges@
            &&& process.runtime == Some(module)
            &&& #[trigger] splitter.stepped(
                Sight { memory: &process.memory, ranges, module: &module, settings },
                timer,
                next,
                asked,
            )
            &&& all_performed(before, asked, world)
        };
    let sight = Sight { memory: &process.memory, ranges, module: &module, settings };
    the_timer_is_driven_properly(splitter, sight, timer, next, asked);
    lemma_performed(before, asked, world, settings);
}

proof fn lemma_went<M: Memory>(
    before: World<M>,
    process: FakeProcess<M>,
    splitter: Splitter,
    fresh: bool,
    steps: nat,
    last: Splitter,
    world: World<M>,
)
    requires
        went(before, process, splitter, fresh, steps, last, world),
        is_sound(before),
    ensures
        is_sound(world),
    decreases steps,
{
    let (next, mid) = choose|next: Splitter, mid: World<M>|
        {
            &&& #[trigger] stepped_once(before, process, splitter, next, mid)
            &&& if goes_on(splitter.phase.rank(), next.phase.rank(), fresh) {
                &&& steps > 0
                &&& went(
                    mid,
                    process,
                    next,
                    fresh && !leaves(splitter.phase.rank(), next.phase.rank()),
                    (steps - 1) as nat,
                    last,
                    world,
                )
            } else {
                last == next && world == mid
            }
        };
    lemma_once(before, process, splitter, next, mid);
    if goes_on(splitter.phase.rank(), next.phase.rank(), fresh) {
        lemma_went(
            mid,
            process,
            next,
            fresh && !leaves(splitter.phase.rank(), next.phase.rank()),
            (steps - 1) as nat,
            last,
            world,
        );
    }
}

proof fn lemma_ran<M: Memory>(from: Drive<M>, handle: u64, splitter: Splitter, to: Drive<M>)
    requires
        from.ran(handle, splitter, to),
        is_sound(from.world),
    ensures
        is_sound(to.world),
{
    match from.world.index_of(handle) {
        Some(p) if from.world.processes@[p as int].open => {
            let process = from.world.processes@[p as int];
            if process.runtime is Some {
                let (steps, last, world) = choose|steps: nat, last: Splitter, world: World<M>|
                    {
                        &&& #[trigger] went(
                            from.world,
                            process,
                            splitter,
                            true,
                            steps,
                            last,
                            world,
                        )
                        &&& if last.phase is Over {
                            (Drive { world, life: Life::Begin }).rests(handle, to)
                        } else {
                            to == (Drive { world, life: Life::Running(handle, last) })
                        }
                    };
                lemma_went(from.world, process, splitter, true, steps, last, world);
            }
        },
        _ => {},
    }
}

proof fn lemma_searching<M: Memory>(from: Drive<M>, attach: Attach, to: Drive<M>)
    requires
        from.sought(attach, to),
        is_sound(from.world),
    ensures
        is_sound(to.world),
{
    let found = choose|found: Drive<M>|
        {
            &&& #[trigger] from.looked(attach, found)
            &&& match found.life {
                Life::Running(handle, splitter) => found.ran(handle, splitter, to),
                _ => to == found,
            }
        };
    match found.life {
        Life::Running(handle, splitter) => lemma_ran(found, handle, splitter, to),
        _ => {},
    }
}

/// What a tick begins with, and the search it begins.
spec fn opens<M: Memory>(from: Drive<M>, mid: Drive<M>, attach: Attach, to: Drive<M>) -> bool {
    &&& mid.sought(attach, to)
    &&& mid.life is Begin
    &&& all_performed(
        from.world,
        seq![Action::Log(Note::Greeting), Action::ClearStatus],
        World { registered_settings: from.world.registered_settings, ..mid.world },
    )
}

proof fn lemma_opens<M: Memory>(from: Drive<M>, to: Drive<M>) -> (opening: (Drive<M>, Attach))
    requires
        from.life is Begin,
        from.ticked(to),
    ensures
        opens(from, opening.0, opening.1, to),
        is_quiet(seq![Action::Log(Note::Greeting), Action::ClearStatus]),
{
    let (mid, attach) = choose|mid: Drive<M>, attach: Attach|
        {
            &&& #[trigger] mid.sought(attach, to)
            &&& opens(from, mid, attach, to)
        };
    (mid, attach)
}

proof fn lemma_drive_tick<M: Memory>(from: Drive<M>, to: Drive<M>)
    requires
        from.ticked(to),
        is_sound(from.world),
    ensures
        is_sound(to.world),
{
    match from.life {
        Life::Begin => {
            let greeting = seq![Action::Log(Note::Greeting), Action::ClearStatus];
            let (mid, attach) = lemma_opens(from, to);
            let settings = settings_of(from.world);
            lemma_quiet(greeting, settings, from.world.timer.state);
            lemma_performed(
                from.world,
                greeting,
                World { registered_settings: from.world.registered_settings, ..mid.world },
                settings,
            );
            lemma_searching(mid, attach, to);
        },
        Life::Searching(attach) => lemma_searching(from, attach, to),
        Life::Running(handle, splitter) => lemma_ran(from, handle, splitter, to),
        Life::Resting(left) => {
            if left <= 1 {
                let attach = choose|attach: Attach|
                    is_new_search(attach) && #[trigger] from.sought(attach, to);
                lemma_searching(from, attach, to);
            }
        },
    }
}

/// Over a whole session, however long, whatever games come and go in memory: the
/// timer is only ever started while it is not running, and only ever split while
/// it is.
pub proof fn a_session_is_clean<M: Memory>(from: Drive<M>, ticks: nat, to: Drive<M>)
    requires
        driven(from, ticks, to),
        is_sound(from.world),
    ensures
        is_sound(to.world),
    decreases ticks,
{
    if ticks > 0 {
        let mid = choose|mid: Drive<M>|
            driven(from, (ticks - 1) as nat, mid) && #[trigger] mid.ticked(to);
        a_session_is_clean(from, (ticks - 1) as nat, mid);
        lemma_drive_tick(mid, to);
    }
}

/// Whether the splitter is not in any game, and none of the processes is one.
spec fn is_idle<M: Memory>(drive: Drive<M>) -> bool {
    &&& drive.life !is Running
    &&& forall|i: int|
        0 <= i < drive.world.processes@.len() ==> !is_game(#[trigger] drive.world.processes@[i])
    &&& drive.world.wf()
}

/// Whether nothing in a record moves a run on.
pub open spec fn is_untouched(events: Seq<TimerEvent>) -> bool {
    forall|i: int| 0 <= i < events.len() ==> !(#[trigger] events[i]).controls()
}

proof fn lemma_untouched<M: Memory>(before: World<M>, asked: Seq<Action>, world: World<M>)
    requires
        all_performed(before, asked, world),
        is_quiet(asked),
        is_untouched(before.timer.events@),
    ensures
        is_untouched(world.timer.events@),
        world.processes == before.processes,
    decreases asked.len(),
{
    if asked.len() > 0 {
        let init = asked.drop_last();
        let last = asked.last();
        assert(last == asked[asked.len() - 1]);
        assert forall|i: int| 0 <= i < init.len() implies (#[trigger] init[i]) !is Start
            && init[i] !is Split by {
            assert(init[i] == asked[i]);
        }
        let mid = choose|mid: World<M>|
            {
                &&& all_performed(before, init, mid)
                &&& #[trigger] performed(mid, last, world)
            };
        lemma_untouched(before, init, mid);
        if reaches_timer(last) {
            let events = world.timer.events@;
            assert forall|i: int| 0 <= i < events.len() implies !(
            #[trigger] events[i]).controls() by {
                if i < events.len() - 1 {
                    assert(events[i] == events.drop_last()[i]);
                }
            }
        }
    }
}

proof fn lemma_idle<M: Memory>(from: Drive<M>, to: Drive<M>)
    requires
        from.ticked(to),
        is_idle(from),
        to.world.wf(),
        is_untouched(from.world.timer.events@),
    ensures
        is_idle(to),
        is_untouched(to.world.timer.events@),
{
    match from.life {
        Life::Begin => {
            let greeting = seq![Action::Log(Note::Greeting), Action::ClearStatus];
            let (mid, attach) = lemma_opens(from, to);
            lemma_untouched(
                from.world,
                greeting,
                World { registered_settings: from.world.registered_settings, ..mid.world },
            );
            lemma_attached(from.world, greeting, mid.world);
            lemma_still_looking(mid, attach, to);
        },
        Life::Searching(attach) => {
            lemma_still_looking(from, attach, to);
        },
        Life::Resting(left) => {
            if left <= 1 {
                let attach = choose|attach: Attach|
                    is_new_search(attach) && #[trigger] from.sought(attach, to);
                lemma_still_looking(from, attach, to);
            }
        },
        _ => {},
    }
}

proof fn lemma_attached<M: Memory>(before: World<M>, asked: Seq<Action>, mid: World<M>)
    requires
        all_performed(
            before,
            asked,
            World { registered_settings: before.registered_settings, ..mid },
        ),
        before.wf(),
    ensures
        mid.wf(),
        mid.processes == before.processes,
{
    lemma_kept(before, asked, World { registered_settings: before.registered_settings, ..mid });
}

proof fn lemma_kept<M: Memory>(before: World<M>, asked: Seq<Action>, world: World<M>)
    requires
        all_performed(before, asked, world),
    ensures
        world.processes == before.processes,
        world.attached == before.attached,
        world.settings == before.settings,
    decreases asked.len(),
{
    if asked.len() > 0 {
        let mid = choose|mid: World<M>|
            {
                &&& all_performed(before, asked.drop_last(), mid)
                &&& #[trigger] performed(mid, asked.last(), world)
            };
        lemma_kept(before, asked.drop_last(), mid);
    }
}

/// Where no process is the game, a search goes on.
proof fn lemma_still_looking<M: Memory>(from: Drive<M>, attach: Attach, to: Drive<M>)
    requires
        from.sought(attach, to),
        from.world.wf(),
        forall|i: int|
            0 <= i < from.world.processes@.len() ==> !is_game(#[trigger] from.world.processes@[i]),
    ensures
        to.life !is Running,
        to.world.timer == from.world.timer,
        to.world.processes == from.world.processes,
{
    let found = choose|found: Drive<M>|
        {
            &&& #[trigger] from.looked(attach, found)
            &&& match found.life {
                Life::Running(handle, splitter) => found.ran(handle, splitter, to),
                _ => to == found,
            }
        };
    lemma_not_running(from.world, found);
}

proof fn lemma_not_running<M: Memory>(before: World<M>, to: Drive<M>)
    requires
        only_searched(before, to.world),
        to.life matches Life::Running(handle, _) ==> to.world.index_of(handle) matches Some(p) && p
            < before.processes@.len() && is_game(before.processes@[p as int]),
        forall|i: int|
            0 <= i < before.processes@.len() ==> !is_game(#[trigger] before.processes@[i]),
    ensures
        to.life !is Running,
{
    match to.life {
        Life::Running(handle, _) => {
            let p = to.world.index_of(handle)->0;
            assert(!is_game(before.processes@[p as int]));
        },
        _ => {},
    }
}

/// Where no process is the game, nothing is ever timed: the timer is neither
/// started nor split, however long the splitter looks.
pub proof fn nothing_is_timed_without_a_game<M: Memory>(
    drives: Seq<Drive<M>>,
)
    requires
        drives.len() > 0,
        drives[0].life is Begin,
        drives[0].world.timer.events@.len() == 0,
        forall|i: int|
            0 <= i < drives[0].world.processes@.len() ==> !is_game(
                #[trigger] drives[0].world.processes@[i],
            ),
        forall|i: int| 0 <= i < drives.len() ==> (#[trigger] drives[i]).world.wf(),
        forall|i: int, j: int|
            0 <= i && j == i + 1 && j < drives.len() ==> (#[trigger] drives[i]).ticked(
                #[trigger] drives[j],
            ),
    ensures
        is_untouched(drives.last().world.timer.events@),
{
    lemma_idle_all(drives, drives.len() - 1);
}

proof fn lemma_idle_all<M: Memory>(drives: Seq<Drive<M>>, n: int)
    requires
        0 <= n < drives.len(),
        drives[0].life is Begin,
        drives[0].world.timer.events@.len() == 0,
        forall|i: int|
            0 <= i < drives[0].world.processes@.len() ==> !is_game(
                #[trigger] drives[0].world.processes@[i],
            ),
        forall|i: int| 0 <= i < drives.len() ==> (#[trigger] drives[i]).world.wf(),
        forall|i: int, j: int|
            0 <= i && j == i + 1 && j < drives.len() ==> (#[trigger] drives[i]).ticked(
                #[trigger] drives[j],
            ),
    ensures
        is_idle(drives[n]),
        is_untouched(drives[n].world.timer.events@),
    decreases n,
{
    if n > 0 {
        lemma_idle_all(drives, n - 1);
        assert(drives[n - 1].ticked(drives[n]));
        lemma_idle(drives[n - 1], drives[n]);
    } else {
        assert(drives[0].world.wf());
    }
}

} // verus!
