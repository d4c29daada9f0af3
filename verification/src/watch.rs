//! Watching a loaded game until the scene changes.
//!
//! One tick is one pass over everything watched, unless something has to be
//! resolved: looking for an object or walking the entities takes many ticks, and
//! nothing else is read meanwhile.
use vstd::prelude::*;

use crate::buildings::{paths_from, way_to_entities, Buildings, OpeningWalk, Reached, Split};
use crate::collections::{list_offsets, List};
use crate::locate::{Locate, Located};
use crate::memory::{
    field_pointer, i32_at, offset_by, plus, read_i32, read_pointer, Memory, MemoryRange,
};
use crate::metadata::Module;
use crate::note::{logged, say_all, Action, Missing, Note};
use crate::run_start::{
    accepting, binding, bound, initializer_in, RunStart, FINISHED, MAX_INITIALIZERS,
};
use crate::scene::SceneLoad;
use crate::service::{field_offset, Locatable};
use crate::settings::Settings;
use crate::singletons::{chunk_read, instance_of, Refresh, Registry};
use crate::table::ReferenceTable;
use crate::timer::TimerState;
use crate::wonder::{completion_in, unlock_in, WonderCompletion, WonderUnlock};

verus! {

/// How often to retry resolving the watched services, in ticks (~1s).
pub const WONDER_RESOLVE_TICKS: u32 = 120;

/// How often to retry resolving GameInitializer, in ticks (~2s). Each attempt
/// costs a search.
///
/// This is the recovery path only, for an initializer that failed validation
/// while being watched. It is far too slow to catch a run start: that has to be
/// bound during the scene load.
pub const RUN_START_RESOLVE_TICKS: u32 = 240;

/// What a step has to work with.
pub struct Sight<'a, M: Memory> {
    pub memory: &'a M,
    pub ranges: &'a [MemoryRange],
    pub module: &'a Module,
    pub settings: Settings,
}

/// What the timer is asked when a run starts, and the state that leaves it in.
pub open spec fn starting(settings: Settings, timer: TimerState) -> (TimerState, Seq<Action>) {
    if !settings.start {
        (timer, Seq::empty())
    } else if timer is NotRunning {
        (TimerState::Running, seq![Action::Log(Note::RunStarted), Action::Start])
    } else {
        (timer, seq![Action::Log(Note::AlreadyRunning)])
    }
}

/// The timer side of a run start. Only from a stopped timer: never restart a run
/// in progress.
pub fn start_timer(settings: &Settings, timer: TimerState, out: &mut Vec<Action>) -> (after:
    TimerState)
    ensures
        ({
            let (state, said) = starting(*settings, timer);
            after == state && final(out)@ == old(out)@ + said
        }),
{
    if !settings.start {
        assert(out@ =~= old(out)@ + Seq::<Action>::empty());
        return timer;
    }
    if timer == TimerState::NotRunning {
        out.push(Action::Log(Note::RunStarted));
        out.push(Action::Start);
        assert(out@ =~= old(out)@ + seq![Action::Log(Note::RunStarted), Action::Start]);
        TimerState::Running
    } else {
        out.push(Action::Log(Note::AlreadyRunning));
        assert(out@ =~= old(out)@ + seq![Action::Log(Note::AlreadyRunning)]);
        timer
    }
}

/// What a finished building, or two, asks of the timer.
pub open spec fn splitting(split: Split, settings: Settings, timer: TimerState) -> Seq<Action> {
    if settings.allows(split) && timer is Running {
        seq![Action::Log(Note::BuildingSplit { split }), Action::Split]
    } else {
        seq![Action::Log(Note::BuildingNoSplit { split })]
    }
}

/// What several finished buildings ask of the timer, in order.
pub open spec fn splitting_all(splits: Seq<Split>, settings: Settings, timer: TimerState) -> Seq<
    Action,
>
    decreases splits.len(),
{
    if splits.len() == 0 {
        Seq::empty()
    } else {
        splitting_all(splits.drop_last(), settings, timer) + splitting(
            splits.last(),
            settings,
            timer,
        )
    }
}

/// Asks the timer for the splits that are enabled, while it is running.
pub fn split_all(
    splits: &Vec<Split>,
    settings: &Settings,
    timer: TimerState,
    out: &mut Vec<Action>,
)
    ensures
        final(out)@ == old(out)@ + splitting_all(splits@, *settings, timer),
{
    let mut i: usize = 0;
    assert(splits@.take(0) =~= Seq::<Split>::empty());
    assert(out@ =~= old(out)@ + splitting_all(splits@.take(0), *settings, timer));
    while i < splits.len()
        invariant
            i <= splits@.len(),
            out@ == old(out)@ + splitting_all(splits@.take(i as int), *settings, timer),
        decreases splits@.len() - i,
    {
        let split: Split = splits[i];
        assert(splits@.take(i + 1).drop_last() =~= splits@.take(i as int));
        if settings.enabled(split) && timer == TimerState::Running {
            out.push(Action::Log(Note::BuildingSplit { split }));
            out.push(Action::Split);
        } else {
            out.push(Action::Log(Note::BuildingNoSplit { split }));
        }
        assert(out@ =~= old(out)@ + splitting_all(splits@.take(i + 1), *settings, timer));
        i = i + 1;
    }
    assert(splits@.take(i as int) =~= splits@);
}

/// What the wonder being unlocked asks of the timer.
pub open spec fn unlocking(unlocked: bool, settings: Settings, timer: TimerState) -> Seq<Action> {
    if !unlocked {
        Seq::empty()
    } else if settings.unlock_wonder && timer is Running {
        seq![Action::Log(Note::WonderSplit), Action::Split]
    } else {
        seq![Action::Log(Note::WonderNoSplit)]
    }
}

/// What the run end asks of the timer. Reaching it without the wonder having
/// been seen unlocked is the symptom of a wrong template name, which is
/// otherwise silent, so that is said first.
pub open spec fn ending(
    ends: bool,
    unlock: Option<WonderUnlock>,
    settings: Settings,
    timer: TimerState,
) -> Seq<Action> {
    if !ends {
        Seq::empty()
    } else {
        let unseen = unlock matches Some(u) && !u.fired && !u.unlocked_on_arrival;
        let warned = if unseen {
            seq![Action::Log(Note::WonderNeverSeen)]
        } else {
            Seq::empty()
        };
        warned + if settings.congratulations_screen && timer is Running {
            seq![Action::Log(Note::RunEnd), Action::Split]
        } else {
            seq![Action::Log(Note::RunEndNoSplit)]
        }
    }
}

proof fn lemma_four(
    before: Seq<Action>,
    one: Seq<Action>,
    two: Seq<Action>,
    three: Seq<Action>,
    four: Seq<Action>,
)
    ensures
        before.is_prefix_of(before + one + two + three + four),
        (before + one + two + three + four).skip(before.len() as int) == one + two + three + four,
{
    assert((before + one + two + three + four).skip(before.len() as int) =~= one + two + three
        + four);
}

fn say_unlock(unlocked: bool, settings: &Settings, timer: TimerState, out: &mut Vec<Action>)
    ensures
        final(out)@ == old(out)@ + unlocking(unlocked, *settings, timer),
{
    if unlocked {
        if settings.unlock_wonder && timer == TimerState::Running {
            out.push(Action::Log(Note::WonderSplit));
            out.push(Action::Split);
        } else {
            out.push(Action::Log(Note::WonderNoSplit));
        }
    }
    assert(out@ =~= old(out)@ + unlocking(unlocked, *settings, timer));
}

fn say_end(
    ends: bool,
    unlock: &Option<WonderUnlock>,
    settings: &Settings,
    timer: TimerState,
    out: &mut Vec<Action>,
)
    ensures
        final(out)@ == old(out)@ + ending(ends, *unlock, *settings, timer),
{
    if ends {
        let unseen = match unlock {
            Some(u) => !u.ever_matched(),
            None => false,
        };
        if unseen {
            out.push(Action::Log(Note::WonderNeverSeen));
        }
        if settings.congratulations_screen && timer == TimerState::Running {
            out.push(Action::Log(Note::RunEnd));
            out.push(Action::Split);
        } else {
            out.push(Action::Log(Note::RunEndNoSplit));
        }
    }
    assert(out@ =~= old(out)@ + ending(ends, *unlock, *settings, timer));
}

/// Where a pass over what is watched is.
pub enum Stage {
    /// Begin a pass.
    Top,
    /// Go on looking for the run start; its state is at this offset.
    Finding(Locate, u32),
    /// Go on with the pass, past the run start.
    Middle,
    /// Go on re-reading the container.
    Refreshing(Refresh),
    /// Ask about the classes of what is to be resolved.
    Describing,
    /// Resolve what is not watched yet.
    Resolving,
    /// Go on with the walk over the entities.
    Walking(OpeningWalk),
    /// Poll everything watched, and end the pass.
    Bottom,
}

impl Stage {
    /// How far a pass has come.
    pub open spec fn rank(self) -> u32 {
        match self {
            Stage::Top => 0,
            Stage::Finding(_, _) => 1,
            Stage::Middle => 2,
            Stage::Refreshing(_) => 3,
            Stage::Describing => 4,
            Stage::Resolving => 5,
            Stage::Walking(_) => 6,
            Stage::Bottom => 7,
        }
    }
}

impl Watch {
    /// How far the pass has come.
    pub fn rank(&self) -> (rank: u32)
        ensures
            rank == self.stage.rank(),
            rank <= 7,
    {
        match self.stage {
            Stage::Top => 0,
            Stage::Finding(_, _) => 1,
            Stage::Middle => 2,
            Stage::Refreshing(_) => 3,
            Stage::Describing => 4,
            Stage::Resolving => 5,
            Stage::Walking(_) => 6,
            Stage::Bottom => 7,
        }
    }
}

/// A loaded game being watched.
pub struct Watch {
    pub clock: Locatable,
    pub registry: Registry,
    /// The game's clock.
    pub instance: u64,
    pub day_number: u32,
    pub event_bus_vtable: u64,
    pub scene: SceneLoad,
    pub run_start: Option<RunStart>,
    pub ticks: u32,
    pub last_day: Option<i32>,
    pub completion: Option<WonderCompletion>,
    pub unlock: Option<WonderUnlock>,
    pub buildings: Option<Buildings>,
    /// Whether it has been said why the buildings cannot be watched. Later
    /// attempts stay quiet, since "not constructed yet" is normal during a load.
    pub explained_buildings: bool,
    pub ended: bool,
    /// Whether a run start was observed while watching this scene. Anything
    /// resolved afterwards belongs to a run already under way, so "already done
    /// when we arrived" is not a reason to stay quiet.
    pub run_began: bool,
    /// A GameInitializer that was being watched and then failed validation.
    pub lost_run_start: Option<u64>,
    pub expect_new_game: Option<bool>,
    /// False where there is nothing to start a run in. The previous game's
    /// initializer is still alive and readable on the menu.
    pub want_run_start: bool,
    pub watched_load: bool,
    pub stage: Stage,
}

/// A game that is just beginning to be watched.
pub open spec fn watching(
    clock: Locatable,
    registry: Registry,
    instance: u64,
    day_number: u32,
    event_bus_vtable: u64,
    scene: SceneLoad,
    run_start: Option<RunStart>,
) -> Watch {
    Watch {
        clock,
        registry,
        instance,
        day_number,
        event_bus_vtable,
        scene,
        run_start,
        ticks: 0,
        last_day: None,
        completion: None,
        unlock: None,
        buildings: None,
        explained_buildings: false,
        ended: false,
        run_began: run_start matches Some(start) && start.fired,
        lost_run_start: None,
        expect_new_game: scene.loaded.newness(),
        want_run_start: !scene.loaded.no_game(),
        watched_load: scene.observed,
        stage: Stage::Top,
    }
}

impl Watch {
    pub open spec fn wf(self) -> bool {
        &&& self.buildings matches Some(b) ==> b.wf()
        &&& match self.stage {
            Stage::Finding(locate, _) => locate.wf(),
            Stage::Refreshing(refresh) => refresh.wf(),
            Stage::Walking(walk) => walk.wf(),
            _ => true,
        }
    }

    /// The same watch, about to do something else.
    pub open spec fn at(self, stage: Stage) -> Self {
        Watch { stage, ..self }
    }

    /// Begins watching the game whose container is `registry`.
    pub fn new(
        clock: Locatable,
        registry: Registry,
        instance: u64,
        day_number: u32,
        event_bus_vtable: u64,
        scene: SceneLoad,
        run_start: Option<RunStart>,
    ) -> (watch: Self)
        ensures
            watch.wf(),
            watch == watching(
                clock,
                registry,
                instance,
                day_number,
                event_bus_vtable,
                scene,
                run_start,
            ),
    {
        // Already true when the start fired during the search that got here:
        // every watcher is then resolved into a run already under way.
        let run_began = match &run_start {
            Some(start) => start.fired,
            None => false,
        };
        Watch {
            clock,
            registry,
            instance,
            day_number,
            event_bus_vtable,
            scene,
            run_start,
            ticks: 0,
            last_day: None,
            completion: None,
            unlock: None,
            buildings: None,
            explained_buildings: false,
            ended: false,
            run_began,
            lost_run_start: None,
            expect_new_game: scene.loaded.new_game(),
            want_run_start: !scene.loaded.is_no_game(),
            watched_load: scene.observed,
            stage: Stage::Top,
        }
    }

    /// Whether the run start being watched is no longer what it was.
    pub open spec fn start_is_gone<M: Memory>(self, memory: &M) -> bool {
        self.run_start matches Some(start) && !start.class.validator.admits(memory, start.instance)
    }

    /// With a run start that is gone let go of.
    pub open spec fn checked<M: Memory>(self, memory: &M) -> (Watch, Seq<Action>) {
        if self.start_is_gone(memory) {
            (
                Watch {
                    lost_run_start: Some(self.run_start->0.instance),
                    run_start: None,
                    ..self
                },
                seq![Action::Log(Note::RunStartGone)],
            )
        } else {
            (self, Seq::empty())
        }
    }

    /// Before the state is read, not after: a freed GameInitializer keeps
    /// returning values from whatever now owns the memory, and one of those
    /// could look like a game starting.
    fn check_start<M: Memory>(&mut self, memory: &M, out: &mut Vec<Action>)
        requires
            old(self).wf(),
        ensures
            final(self).wf(),
            *final(self) == old(self).checked(memory).0,
            final(out)@ == old(out)@ + old(self).checked(memory).1,
    {
        assert(out@ =~= old(out)@ + Seq::<Action>::empty());
        if let Some(start) = self.run_start {
            if !start.still_valid(memory) {
                out.push(Action::Log(Note::RunStartGone));
                assert(out@ =~= old(out)@ + seq![Action::Log(Note::RunStartGone)]);
                // Skipped from here on: its memory is free to be reused as
                // something that reads like a game starting.
                self.lost_run_start = Some(start.instance);
                self.run_start = None;
            }
        }
    }

    /// Whether it is time to look for the run start.
    pub open spec fn seeks_start(self) -> bool {
        self.want_run_start && self.run_start is None && self.ticks % RUN_START_RESOLVE_TICKS == 0
    }

    /// What polling the run start leads to: the watch, the timer, and what is
    /// asked of the host.
    pub open spec fn started<M: Memory>(
        self,
        memory: &M,
        settings: Settings,
        timer: TimerState,
    ) -> (Watch, TimerState, Seq<Action>) {
        match self.run_start {
            None => (self, timer, Seq::empty()),
            Some(start) => {
                let (after, starts, said) = start.polled(
                    start.state(memory),
                    start.save_name(memory),
                    timer,
                );
                if starts {
                    let (state, asked) = starting(settings, timer);
                    (
                        Watch {
                            run_start: Some(after),
                            run_began: true,
                            unlock: None,
                            completion: None,
                            buildings: None,
                            ..self
                        },
                        state,
                        said + seq![Action::ClearStatus] + asked,
                    )
                } else {
                    (Watch { run_start: Some(after), ..self }, timer, said)
                }
            },
        }
    }

    /// Polls the run start.
    ///
    /// When a run is beginning, nothing the other watchers hold belongs to it:
    /// they were bound to whatever came before. Re-resolving from here also
    /// means anything they then find already done really was done during this
    /// run.
    fn poll_start<M: Memory>(
        &mut self,
        memory: &M,
        settings: &Settings,
        timer: TimerState,
        out: &mut Vec<Action>,
    ) -> (after: TimerState)
        requires
            old(self).wf(),
        ensures
            final(self).wf(),
            ({
                let (watch, state, asked) = old(self).started(memory, *settings, timer);
                &&& *final(self) == watch
                &&& after == state
                &&& final(out)@ == old(out)@ + asked
            }),
    {
        let mut start = match self.run_start {
            Some(start) => start,
            None => {
                assert(out@ =~= old(out)@ + Seq::<Action>::empty());
                return timer;
            },
        };
        let starts = start.poll(memory, timer, out);
        self.run_start = Some(start);
        if !starts {
            return timer;
        }
        self.run_began = true;
        self.unlock = None;
        self.completion = None;
        self.buildings = None;
        // Whatever went wrong before, it was about a previous game.
        out.push(Action::ClearStatus);
        let after = start_timer(settings, timer, out);
        proof {
            let said = old(self).run_start->0.polled(
                old(self).run_start->0.state(memory),
                old(self).run_start->0.save_name(memory),
                timer,
            ).2;
            let asked = starting(*settings, timer).1;
            assert(out@ =~= old(out)@ + (said + seq![Action::ClearStatus] + asked));
        }
        after
    }

    /// With the day noted where it has changed.
    pub open spec fn dated<M: Memory>(self, memory: &M) -> (Watch, Seq<Action>) {
        match i32_at(memory, plus(self.instance, self.day_number as u64)) {
            Some(day) => if self.last_day == Some(day) {
                (self, Seq::empty())
            } else {
                (
                    Watch { last_day: Some(day), ..self },
                    seq![Action::Log(Note::DayNumber { day })],
                )
            },
            None => (self, Seq::empty()),
        }
    }

    fn note_day<M: Memory>(&mut self, memory: &M, out: &mut Vec<Action>)
        requires
            old(self).wf(),
        ensures
            final(self).wf(),
            *final(self) == old(self).dated(memory).0,
            final(out)@ == old(out)@ + old(self).dated(memory).1,
    {
        assert(out@ =~= old(out)@ + Seq::<Action>::empty());
        if let Some(day) = read_i32(memory, offset_by(self.instance, self.day_number as u64)) {
            if self.last_day != Some(day) {
                out.push(Action::Log(Note::DayNumber { day }));
                assert(out@ =~= old(out)@ + seq![Action::Log(Note::DayNumber { day })]);
                self.last_day = Some(day);
            }
        }
    }

    /// Whether anything is to be looked up in the container now.
    ///
    /// Nothing may sample game state until initialization is done: the save
    /// restorer sets `CountdownFinished` partway through a load. And looking
    /// anything up in a container that is no longer one would read whatever now
    /// owns the memory.
    pub open spec fn resolves<M: Memory>(self, memory: &M) -> bool {
        &&& self.run_start matches Some(start) && (start.last matches Some(state) && state
            >= FINISHED)
        &&& self.ticks % WONDER_RESOLVE_TICKS == 0
        &&& self.registry.layout.class.validator.admits(memory, self.registry.repository)
        &&& (self.completion is None || self.unlock is None || self.buildings is None)
    }

    fn is_resolving<M: Memory>(&self, memory: &M) -> (resolves: bool)
        ensures
            resolves == self.resolves(memory),
    {
        let initialized = match &self.run_start {
            Some(start) => start.initialized(),
            None => false,
        };
        initialized && self.ticks % WONDER_RESOLVE_TICKS == 0 && self.registry.still_valid(memory)
            && (self.completion.is_none() || self.unlock.is_none() || self.buildings.is_none())
    }

    /// With the watchers let go of whose object is no longer what it was.
    ///
    /// Each watcher owns a different object with its own lifetime, so the clock
    /// still validating does not mean these do.
    pub open spec fn valid_only<M: Memory>(self, memory: &M) -> Self {
        Watch {
            unlock: if self.unlock matches Some(u) && u.class.validator.admits(
                memory,
                u.instance,
            ) {
                self.unlock
            } else {
                None
            },
            completion: if self.completion matches Some(c) && c.class.validator.admits(
                memory,
                c.instance,
            ) {
                self.completion
            } else {
                None
            },
            buildings: if self.buildings matches Some(b) && i32_at(
                memory,
                plus(b.paths.entities, b.paths.size_offset as u64),
            ) is Some {
                self.buildings
            } else {
                None
            },
            ..self
        }
    }

    fn keep_valid<M: Memory>(&mut self, memory: &M)
        requires
            old(self).wf(),
        ensures
            final(self).wf(),
            *final(self) == old(self).valid_only(memory),
    {
        let unlocks = match &self.unlock {
            Some(u) => u.still_valid(memory),
            None => false,
        };
        if !unlocks {
            self.unlock = None;
        }
        let completes = match &self.completion {
            Some(c) => c.still_valid(memory),
            None => false,
        };
        if !completes {
            self.completion = None;
        }
        let builds = match &self.buildings {
            Some(b) => b.still_valid(memory),
            None => false,
        };
        if !builds {
            self.buildings = None;
        }
    }

    /// What polling the buildings leads to.
    pub open spec fn built<M: Memory>(self, memory: &M, after: Watch, fired: Seq<Split>) -> bool {
        &&& after == (Watch { buildings: after.buildings, ..self })
        &&& match self.buildings {
            Some(b) => after.buildings matches Some(next) && b.polled(memory, next, fired),
            None => after.buildings is None && fired == Seq::<Split>::empty(),
        }
    }

    fn poll_buildings<M: Memory>(&mut self, memory: &M) -> (fired: Vec<Split>)
        requires
            old(self).wf(),
        ensures
            final(self).wf(),
            old(self).built(memory, *final(self), fired@),
    {
        match &mut self.buildings {
            Some(b) => b.poll(memory),
            None => Vec::new(),
        }
    }

    /// What polling the unlock leads to.
    pub open spec fn unlock_polled<M: Memory>(self, memory: &M, module: Module) -> (Watch, bool) {
        match self.unlock {
            Some(u) => {
                let (after, unlocked) = u.polled(memory, module);
                (Watch { unlock: Some(after), ..self }, unlocked)
            },
            None => (self, false),
        }
    }

    /// What polling the completion leads to: the watch, whether the run ends,
    /// and what is noted on the way.
    pub open spec fn completion_polled<M: Memory>(self, memory: &M, module: Module) -> (
        Watch,
        bool,
        Seq<Note>,
    ) {
        match self.completion {
            Some(c) => {
                let (measured, length) = c.told_of_length(
                    memory,
                    module,
                    self.clock,
                    self.instance,
                );
                let (after, activation) = measured.told_of_activation(memory);
                let ends = !self.ended && after.ended(memory);
                (
                    Watch { completion: Some(after), ended: self.ended || ends, ..self },
                    ends,
                    length + activation,
                )
            },
            None => (self, false, Seq::empty()),
        }
    }

    fn poll_unlock<M: Memory>(&mut self, memory: &M, module: &Module) -> (unlocked: bool)
        requires
            old(self).wf(),
        ensures
            final(self).wf(),
            (*final(self), unlocked) == old(self).unlock_polled(memory, *module),
    {
        match &mut self.unlock {
            Some(u) => u.poll(memory, module),
            None => false,
        }
    }

    fn poll_completion<M: Memory>(
        &mut self,
        memory: &M,
        module: &Module,
        notes: &mut Vec<Note>,
    ) -> (ends: bool)
        requires
            old(self).wf(),
        ensures
            final(self).wf(),
            ({
                let (watch, ended, said) = old(self).completion_polled(memory, *module);
                &&& *final(self) == watch
                &&& ends == ended
                &&& final(notes)@ == old(notes)@ + said
            }),
    {
        let mut completion = match self.completion {
            Some(completion) => completion,
            None => {
                assert(notes@ =~= old(notes)@ + Seq::<Note>::empty());
                return false;
            },
        };
        completion.report_length(memory, module, &self.clock, self.instance, notes);
        completion.report_activation(memory, notes);
        assert(notes@ =~= old(notes)@ + old(self).completion_polled(memory, *module).2);
        self.completion = Some(completion);
        let ends = !self.ended && completion.finished(memory);
        if ends {
            self.ended = true;
        }
        ends
    }

    /// What the end of a pass leads to.
    pub open spec fn bottomed<M: Memory>(
        self,
        memory: &M,
        module: Module,
        settings: Settings,
        timer: TimerState,
        after: Watch,
        asked: Seq<Action>,
    ) -> bool {
        exists|mid: Watch, fired: Seq<Split>|
            {
                &&& #[trigger] self.valid_only(memory).built(memory, mid, fired)
                &&& {
                    let (polled, unlocked) = mid.unlock_polled(memory, module);
                    let (last, ends, notes) = polled.completion_polled(memory, module);
                    &&& after == (Watch {
                        ticks: if self.ticks == u32::MAX {
                            0
                        } else {
                            (self.ticks + 1) as u32
                        },
                        stage: Stage::Top,
                        ..last
                    })
                    &&& asked == splitting_all(fired, settings, timer) + unlocking(
                        unlocked,
                        settings,
                        timer,
                    ) + logged(notes) + ending(ends, polled.unlock, settings, timer)
                }
            }
    }

    /// Polls everything watched, and ends the pass.
    fn bottom<M: Memory>(
        &mut self,
        memory: &M,
        module: &Module,
        settings: &Settings,
        timer: TimerState,
        out: &mut Vec<Action>,
    )
        requires
            old(self).wf(),
            !(old(self).stage is Finding),
            !(old(self).stage is Refreshing),
            !(old(self).stage is Walking),
        ensures
            final(self).wf(),
            old(out)@.is_prefix_of(final(out)@),
            old(self).bottomed(
                memory,
                *module,
                *settings,
                timer,
                *final(self),
                final(out)@.skip(old(out)@.len() as int),
            ),
    {
        self.keep_valid(memory);
        let fired = self.poll_buildings(memory);
        let ghost mid = *self;
        assert(old(self).valid_only(memory).built(memory, mid, fired@));
        split_all(&fired, settings, timer, out);
        let ghost one = splitting_all(fired@, *settings, timer);

        let unlocked = self.poll_unlock(memory, module);
        let ghost polled = *self;
        say_unlock(unlocked, settings, timer, out);
        let ghost two = unlocking(unlocked, *settings, timer);

        // The actual run end: the Congratulations screen. Read every tick.
        let mut notes: Vec<Note> = Vec::new();
        let unlock = self.unlock;
        let ends = self.poll_completion(memory, module, &mut notes);
        assert(Seq::<Note>::empty() + polled.completion_polled(memory, *module).2
            =~= polled.completion_polled(memory, *module).2);
        say_all(out, &notes);
        let ghost three = logged(notes@);
        say_end(ends, &unlock, settings, timer, out);
        let ghost four = ending(ends, polled.unlock, *settings, timer);
        proof {
            lemma_four(old(out)@, one, two, three, four);
        }
        self.ticks = self.ticks.wrapping_add(1);
        self.stage = Stage::Top;
    }
}

impl Watch {
    /// What a pass, past the run start, leads to.
    pub open spec fn middled<M: Memory>(
        self,
        memory: &M,
        module: Module,
        settings: Settings,
        timer: TimerState,
        after: Watch,
        asked: Seq<Action>,
    ) -> bool {
        let (polled, state, starts) = self.started(memory, settings, timer);
        let (dated, days) = polled.dated(memory);
        if dated.resolves(memory) {
            &&& asked == starts + days
            &&& match dated.registry.layout.held(memory, dated.registry.repository) {
                Some(references) => {
                    &&& after == dated.at(after.stage)
                    &&& after.stage matches Stage::Refreshing(refresh) && refresh@ == (
                        references,
                        0int,
                        Seq::<(u64, u64)>::empty(),
                    )
                },
                None => after == dated.at(Stage::Describing),
            }
        } else {
            exists|rest: Seq<Action>|
                {
                    &&& #[trigger] dated.bottomed(memory, module, settings, state, after, rest)
                    &&& asked == starts + days + rest
                }
        }
    }

    /// Polls the run start and the day, then begins resolving or goes on to the
    /// end of the pass.
    fn middle<M: Memory>(
        &mut self,
        memory: &M,
        module: &Module,
        settings: &Settings,
        timer: TimerState,
        out: &mut Vec<Action>,
    )
        requires
            old(self).wf(),
            !(old(self).stage is Finding),
            !(old(self).stage is Refreshing),
            !(old(self).stage is Walking),
        ensures
            final(self).wf(),
            old(out)@.is_prefix_of(final(out)@),
            old(self).middled(
                memory,
                *module,
                *settings,
                timer,
                *final(self),
                final(out)@.skip(old(out)@.len() as int),
            ),
    {
        let state = self.poll_start(memory, settings, timer, out);
        let ghost starts = old(self).started(memory, *settings, timer).2;
        let ghost polled = *self;
        self.note_day(memory, out);
        let ghost days = polled.dated(memory).1;
        let ghost dated = *self;
        let ghost so_far = out@;
        proof {
            lemma_two(old(out)@, starts, days);
        }
        if self.is_resolving(memory) {
            // The snapshot is only as new as the last time it was taken, and
            // the watchers are retried precisely because the services do not
            // all exist at once. Nothing short of re-reading the container will
            // show a new arrival.
            match self.registry.refresh(memory) {
                Some(refresh) => {
                    self.stage = Stage::Refreshing(refresh);
                },
                None => {
                    self.stage = Stage::Describing;
                },
            }
            return ;
        }
        self.bottom(memory, module, settings, state, out);
        proof {
            let rest = out@.skip(so_far.len() as int);
            assert(dated.bottomed(memory, *module, *settings, state, *self, rest));
            lemma_after(old(out)@, starts, days, so_far, out@);
        }
    }

    /// The address of the unlocked buildings' set, where it can be reached.
    pub open spec fn unlock_set<M: Memory>(self, memory: &M, module: Module) -> Option<u64> {
        let image = "Timberborn.ScienceSystem";
        let name = "BuildingUnlockingService";
        match (
            module.vtable(image@, name@),
            module.offset(image@, name@, "_unlockedBuildings"@),
        ) {
            (Some(vtable), Some(field)) => match instance_of(self.registry.entries@, vtable) {
                Some(instance) => field_pointer(memory, instance, field),
                None => None,
            },
            _ => None,
        }
    }

    /// What is asked about the classes of collections that are about to be read
    /// and whose class is not known yet.
    pub open spec fn asks<M: Memory>(self, memory: &M, module: Module) -> Seq<Action> {
        let set = self.unlock_set(memory, module);
        let way = way_to_entities(memory, module, self.registry.entries@);
        asking(memory, module, self.unlock is None, set) + asking(
            memory,
            module,
            self.buildings is None,
            match way {
                Ok(reached) => Some(reached.entities),
                Err(_) => None,
            },
        )
    }

    fn describe<M: Memory>(&self, memory: &M, module: &Module, out: &mut Vec<Action>)
        ensures
            final(out)@ == old(out)@ + self.asks(memory, *module),
    {
        let vtable = match module.get_class("Timberborn.ScienceSystem", "BuildingUnlockingService") {
            Some(class) => class.vtable,
            None => None,
        };
        let field = field_offset(
            module,
            "Timberborn.ScienceSystem",
            "BuildingUnlockingService",
            "_unlockedBuildings",
        );
        let set = match (vtable, field) {
            (Some(vtable), Some(field)) => match self.registry.lookup(vtable) {
                Some(instance) => read_pointer(memory, instance, field),
                None => None,
            },
            _ => None,
        };
        ask(memory, module, self.unlock.is_none(), set, out);
        let entities = match Reached::resolve(memory, module, &self.registry) {
            Ok(reached) => Some(reached.entities),
            Err(_) => None,
        };
        ask(memory, module, self.buildings.is_none(), entities, out);
        assert(out@ =~= old(out)@ + self.asks(memory, *module));
    }

    /// With the run end watched, where it was not and can be.
    pub open spec fn completion_resolved<M: Memory>(self, memory: &M, module: Module) -> (
        Watch,
        Seq<Note>,
    ) {
        match (
            self.completion,
            completion_in(memory, module, self.event_bus_vtable, self.registry.entries@),
        ) {
            (None, Some(found)) => {
                let watching = Note::WatchingCompletion {
                    instance: found.instance,
                    already: found.was_finished_on_arrival,
                };
                if self.run_began {
                    (
                        Watch {
                            completion: Some(
                                WonderCompletion { was_finished_on_arrival: false, ..found },
                            ),
                            ..self
                        },
                        if found.was_finished_on_arrival {
                            seq![watching, Note::CompletionMidRun]
                        } else {
                            seq![watching]
                        },
                    )
                } else {
                    (Watch { completion: Some(found), ..self }, seq![watching])
                }
            },
            _ => (self, Seq::empty()),
        }
    }

    fn resolve_completion<M: Memory>(&mut self, memory: &M, module: &Module, notes: &mut Vec<Note>)
        requires
            old(self).wf(),
        ensures
            final(self).wf(),
            *final(self) == old(self).completion_resolved(memory, *module).0,
            final(notes)@ == old(notes)@ + old(self).completion_resolved(memory, *module).1,
    {
        if self.completion.is_none() {
            let mut found = WonderCompletion::resolve(
                memory,
                module,
                self.event_bus_vtable,
                &self.registry,
                notes,
            );
            if self.run_began {
                if let Some(completion) = &mut found {
                    completion.arrived_mid_run(notes);
                }
            }
            self.completion = found;
        }
        assert(notes@ =~= old(notes)@ + old(self).completion_resolved(memory, *module).1);
    }

    /// With the unlock watched, where it was not and can be.
    pub open spec fn unlock_resolved<M: Memory>(self, memory: &M, module: Module) -> (
        Watch,
        Seq<Note>,
    ) {
        match (
            self.unlock,
            unlock_in(memory, module, self.event_bus_vtable, self.registry.entries@),
        ) {
            (None, Some(found)) => {
                let watching = Note::WatchingUnlocks {
                    set: found.set,
                    unlocked: found.unlocked_on_arrival,
                };
                if self.run_began {
                    (
                        Watch {
                            unlock: Some(WonderUnlock { unlocked_on_arrival: false, ..found }),
                            ..self
                        },
                        if found.unlocked_on_arrival {
                            seq![watching, Note::UnlockMidRun]
                        } else {
                            seq![watching]
                        },
                    )
                } else {
                    (Watch { unlock: Some(found), ..self }, seq![watching])
                }
            },
            _ => (self, Seq::empty()),
        }
    }

    fn resolve_unlock<M: Memory>(&mut self, memory: &M, module: &Module, notes: &mut Vec<Note>)
        requires
            old(self).wf(),
        ensures
            final(self).wf(),
            *final(self) == old(self).unlock_resolved(memory, *module).0,
            final(notes)@ == old(notes)@ + old(self).unlock_resolved(memory, *module).1,
    {
        if self.unlock.is_none() {
            let mut found = WonderUnlock::resolve(
                memory,
                module,
                self.event_bus_vtable,
                &self.registry,
                notes,
            );
            if self.run_began {
                if let Some(unlock) = &mut found {
                    unlock.arrived_mid_run(notes);
                }
            }
            self.unlock = found;
        }
        assert(notes@ =~= old(notes)@ + old(self).unlock_resolved(memory, *module).1);
    }

    /// What beginning to watch the buildings leads to, where they are not.
    pub open spec fn buildings_resolved<M: Memory>(
        self,
        memory: &M,
        module: Module,
        after: Watch,
        said: Seq<Note>,
    ) -> bool {
        let told = Watch { explained_buildings: true, ..self };
        if self.buildings is Some {
            after == self.at(Stage::Bottom) && said == Seq::<Note>::empty()
        } else {
            match entities_in(memory, module, self.registry.entries@) {
                Err(missing) => {
                    &&& after == told.at(Stage::Bottom)
                    &&& said == if self.explained_buildings {
                        Seq::empty()
                    } else {
                        seq![Note::CannotWatchBuildings { missing }]
                    }
                },
                Ok(paths) => {
                    &&& after == told.at(after.stage)
                    &&& after.stage matches Stage::Walking(walk) && walk.begun(memory, paths)
                        && said == seq![Note::WalkStarting { total: walk.total }]
                },
            }
        }
    }

    fn resolve_buildings<M: Memory>(&mut self, memory: &M, module: &Module, notes: &mut Vec<Note>)
        requires
            old(self).wf(),
            old(self).stage is Resolving,
        ensures
            final(self).wf(),
            old(notes)@.is_prefix_of(final(notes)@),
            old(self).buildings_resolved(
                memory,
                *module,
                *final(self),
                final(notes)@.skip(old(notes)@.len() as int),
            ),
    {
        assert(notes@.skip(old(notes)@.len() as int) =~= Seq::<Note>::empty());
        if self.buildings.is_some() {
            self.stage = Stage::Bottom;
            return ;
        }
        let explain = !self.explained_buildings;
        self.explained_buildings = true;
        let missing = match Reached::resolve(memory, module, &self.registry) {
            Ok(reached) => match List::offsets(memory, module, reached.entities) {
                Some((size_offset, items_offset)) => {
                    let walk = OpeningWalk::begin(
                        memory,
                        reached,
                        size_offset,
                        items_offset,
                        notes,
                    );
                    assert(notes@.skip(old(notes)@.len() as int) =~= seq![
                        Note::WalkStarting { total: walk.total },
                    ]);
                    self.stage = Stage::Walking(walk);
                    return ;
                },
                None => Missing::NotAList,
            },
            Err(missing) => missing,
        };
        if explain {
            notes.push(Note::CannotWatchBuildings { missing });
            assert(notes@.skip(old(notes)@.len() as int) =~= seq![
                Note::CannotWatchBuildings { missing },
            ]);
        }
        self.stage = Stage::Bottom;
    }
}

impl Watch {
    /// What beginning a pass leads to.
    pub open spec fn topped<M: Memory>(
        self,
        sight: Sight<M>,
        timer: TimerState,
        table: Option<ReferenceTable>,
        after: Watch,
        table_after: Option<ReferenceTable>,
        left: bool,
        asked: Seq<Action>,
    ) -> bool {
        let flag = self.scene.flag(sight.memory);
        let told = Watch { scene: self.scene.told(flag), ..self };
        let (checked, said) = told.checked(sight.memory);
        let target = initializer_in(*sight.module, self.event_bus_vtable);
        if flag == Some(true) && !self.scene.loading {
            // The authoritative end of this world: everything held here belongs
            // to the scene being replaced, whether or not it still reads.
            left && after == told && table_after == table && asked == Seq::<Action>::empty()
        } else if checked.seeks_start() && target is Some {
            let (class, offset) = target->0;
            &&& !left
            &&& after == checked.at(after.stage)
            &&& exists|notes: Seq<Note>|
                {
                    &&& asked == said + #[trigger] logged(notes)
                    &&& after.stage matches Stage::Finding(locate, at) && at == offset
                        && locate.class == class && locate.limit == MAX_INITIALIZERS
                        && locate.accept == accepting(offset, checked.lost_run_start, false)
                        && locate.may_sweep && locate.begun(
                        sight.ranges@,
                        table,
                        table_after,
                        notes,
                    )
                }
        } else {
            &&& !left
            &&& table_after == table
            &&& exists|rest: Seq<Action>|
                {
                    &&& #[trigger] checked.middled(
                        sight.memory,
                        *sight.module,
                        sight.settings,
                        timer,
                        after,
                        rest,
                    )
                    &&& asked == said + rest
                }
        }
    }

    /// What a step of looking for the run start leads to.
    pub open spec fn found<M: Memory>(
        self,
        sight: Sight<M>,
        locate: Locate,
        offset: u32,
        table: Option<ReferenceTable>,
        after: Watch,
        table_after: Option<ReferenceTable>,
        asked: Seq<Action>,
    ) -> bool {
        exists|next: Locate, located: Located, notes: Seq<Note>|
            {
                &&& #[trigger] locate.stepped(
                    sight.memory,
                    sight.ranges@,
                    table,
                    next,
                    table_after,
                    located,
                    notes,
                )
                &&& match located {
                    Located::Pending => {
                        &&& after == self.at(Stage::Finding(next, offset))
                        &&& asked == logged(notes)
                    },
                    Located::Done(found) => match found.first() {
                        Some(instance) => {
                            let start = bound(
                                *sight.module,
                                locate.class,
                                offset,
                                instance,
                                self.expect_new_game,
                                self.watched_load,
                            );
                            &&& after == (Watch {
                                run_start: Some(start),
                                stage: Stage::Middle,
                                ..self
                            })
                            &&& asked == logged(notes) + binding(start)
                        },
                        None => after == self.at(Stage::Middle) && asked == logged(notes),
                    },
                }
            }
    }

    /// What resolving what is not watched yet leads to.
    pub open spec fn resolved<M: Memory>(
        self,
        memory: &M,
        module: Module,
        after: Watch,
        asked: Seq<Action>,
    ) -> bool {
        let (completing, one) = self.completion_resolved(memory, module);
        let (unlocking, two) = completing.unlock_resolved(memory, module);
        exists|three: Seq<Note>|
            {
                &&& #[trigger] unlocking.buildings_resolved(memory, module, after, three)
                &&& asked == logged(one + two + three)
            }
    }

    /// What a step of the walk over the entities leads to.
    pub open spec fn walked<M: Memory>(
        self,
        memory: &M,
        walk: OpeningWalk,
        after: Watch,
        asked: Seq<Action>,
    ) -> bool {
        if walk.index < walk.total {
            &&& after == self.at(after.stage)
            &&& after.stage matches Stage::Walking(next) && walk.advanced(memory, next)
            &&& asked == Seq::<Action>::empty()
        } else {
            exists|found: Buildings|
                {
                    let watching = Note::WatchingEntities {
                        total: walk.total,
                        watched: walk.buildings.watched@.len() as usize,
                        finished: found.finished,
                    };
                    &&& #[trigger] walk.ends_as(memory, found)
                    &&& after == (Watch { buildings: after.buildings, stage: Stage::Bottom, ..self })
                    &&& if self.run_began {
                        &&& after.buildings matches Some(b) && b.owes_all(found)
                        &&& asked == logged(seq![watching] + found.mid_run_note())
                    } else {
                        after.buildings == Some(found) && asked == logged(seq![watching])
                    }
                }
        }
    }

    /// What a step leads to: the watch, whether the game was left, and what is
    /// asked of the host.
    pub open spec fn stepped<M: Memory>(
        self,
        sight: Sight<M>,
        timer: TimerState,
        table: Option<ReferenceTable>,
        after: Watch,
        table_after: Option<ReferenceTable>,
        left: bool,
        asked: Seq<Action>,
    ) -> bool {
        let memory = sight.memory;
        let module = *sight.module;
        match self.stage {
            Stage::Top => self.topped(sight, timer, table, after, table_after, left, asked),
            Stage::Finding(locate, offset) => !left && self.at(Stage::Top).found(
                sight,
                locate,
                offset,
                table,
                after,
                table_after,
                asked,
            ),
            _ => {
                &&& !left
                &&& table_after == table
                &&& match self.stage {
                    Stage::Middle => self.middled(
                        memory,
                        module,
                        sight.settings,
                        timer,
                        after,
                        asked,
                    ),
                    Stage::Refreshing(refresh) => {
                        &&& asked == Seq::<Action>::empty()
                        &&& if refresh.index < refresh.references@.len() {
                            &&& after == self.at(after.stage)
                            &&& after.stage matches Stage::Refreshing(next) && next@ == chunk_read(
                                memory,
                                refresh@,
                            )
                        } else {
                            after == (Watch {
                                registry: Registry { entries: refresh.entries, ..self.registry },
                                stage: Stage::Describing,
                                ..self
                            })
                        }
                    },
                    Stage::Describing => {
                        after == self.at(Stage::Resolving) && asked == self.asks(memory, module)
                    },
                    Stage::Resolving => self.resolved(memory, module, after, asked),
                    Stage::Walking(walk) => self.at(Stage::Top).walked(memory, walk, after, asked),
                    _ => self.bottomed(memory, module, sight.settings, timer, after, asked),
                }
            },
        }
    }

    fn top<M: Memory>(
        &mut self,
        sight: &Sight<M>,
        timer: TimerState,
        table: &mut Option<ReferenceTable>,
        out: &mut Vec<Action>,
    ) -> (left: bool)
        requires
            old(self).wf(),
            old(self).stage is Top,
        ensures
            final(self).wf(),
            old(out)@.is_prefix_of(final(out)@),
            old(self).topped(
                *sight,
                timer,
                *old(table),
                *final(self),
                *final(table),
                left,
                final(out)@.skip(old(out)@.len() as int),
            ),
    {
        let memory = sight.memory;
        if self.scene.started_loading(memory) {
            assert(out@.skip(old(out)@.len() as int) =~= Seq::<Action>::empty());
            return true;
        }
        let ghost told = *self;
        self.check_start(memory, out);
        let ghost said = told.checked(memory).1;
        let ghost checked = *self;
        let ghost so_far = out@;
        if self.want_run_start && self.run_start.is_none() && self.ticks % RUN_START_RESOLVE_TICKS
            == 0 {
            if let Some((class, offset)) = RunStart::target(sight.module, self.event_bus_vtable) {
                let mut notes: Vec<Note> = Vec::new();
                let accept = RunStart::acceptable(offset, self.lost_run_start, false);
                let locate = Locate::begin(
                    class,
                    MAX_INITIALIZERS,
                    accept,
                    true,
                    sight.ranges,
                    table,
                    &mut notes,
                );
                assert(notes@.skip(0) =~= notes@);
                say_all(out, &notes);
                proof {
                    lemma_two(old(out)@, said, logged(notes@));
                }
                self.stage = Stage::Finding(locate, offset);
                return false;
            }
        }
        self.middle(memory, sight.module, &sight.settings, timer, out);
        proof {
            let rest = out@.skip(so_far.len() as int);
            assert(checked.middled(
                memory,
                *sight.module,
                sight.settings,
                timer,
                *self,
                rest,
            ));
            assert(Seq::<Action>::empty() + said =~= said);
            assert(old(out)@ + said + Seq::<Action>::empty() =~= so_far);
            lemma_after(old(out)@, said, Seq::empty(), so_far, out@);
            assert(said + Seq::<Action>::empty() + rest =~= said + rest);
        }
        false
    }

    fn find_start<M: Memory>(
        &mut self,
        sight: &Sight<M>,
        locate: Locate,
        offset: u32,
        table: &mut Option<ReferenceTable>,
        out: &mut Vec<Action>,
    )
        requires
            old(self).at(Stage::Top).wf(),
            locate.wf(),
        ensures
            final(self).wf(),
            old(out)@.is_prefix_of(final(out)@),
            old(self).found(
                *sight,
                locate,
                offset,
                *old(table),
                *final(self),
                *final(table),
                final(out)@.skip(old(out)@.len() as int),
            ),
    {
        let mut notes: Vec<Note> = Vec::new();
        let class: Locatable = locate.class;
        let (next, located) = locate.step(sight.memory, sight.ranges, table, &mut notes);
        assert(notes@.skip(0) =~= notes@);
        assert(locate.stepped(
            sight.memory,
            sight.ranges@,
            *old(table),
            next,
            *table,
            located,
            notes@,
        ));
        say_all(out, &notes);
        assert(out@.skip(old(out)@.len() as int) =~= logged(notes@));
        match located {
            Located::Pending => {
                self.stage = Stage::Finding(next, offset);
            },
            Located::Done(found) => {
                if let Some(instance) = found.one() {
                    let start = RunStart::bind(
                        sight.module,
                        class,
                        offset,
                        instance,
                        self.expect_new_game,
                        self.watched_load,
                        out,
                    );
                    proof {
                        lemma_two(old(out)@, logged(notes@), binding(start));
                    }
                    self.run_start = Some(start);
                }
                self.stage = Stage::Middle;
            },
        }
    }

    fn resolve<M: Memory>(&mut self, memory: &M, module: &Module, out: &mut Vec<Action>)
        requires
            old(self).wf(),
            old(self).stage is Resolving,
        ensures
            final(self).wf(),
            old(out)@.is_prefix_of(final(out)@),
            old(self).resolved(
                memory,
                *module,
                *final(self),
                final(out)@.skip(old(out)@.len() as int),
            ),
    {
        let mut notes: Vec<Note> = Vec::new();
        self.resolve_completion(memory, module, &mut notes);
        let ghost one = old(self).completion_resolved(memory, *module).1;
        assert(notes@ =~= one);
        let ghost completing = *self;
        self.resolve_unlock(memory, module, &mut notes);
        let ghost two = completing.unlock_resolved(memory, *module).1;
        let ghost unlocking = *self;
        let ghost so_far = notes@;
        self.resolve_buildings(memory, module, &mut notes);
        let ghost three = notes@.skip(so_far.len() as int);
        assert(unlocking.buildings_resolved(memory, *module, *self, three));
        assert(notes@ =~= one + two + three);
        say_all(out, &notes);
        assert(out@.skip(old(out)@.len() as int) =~= logged(notes@));
    }

    fn walk_on<M: Memory>(&mut self, memory: &M, walk: OpeningWalk, out: &mut Vec<Action>)
        requires
            old(self).at(Stage::Top).wf(),
            walk.wf(),
        ensures
            final(self).wf(),
            old(out)@.is_prefix_of(final(out)@),
            old(self).walked(
                memory,
                walk,
                *final(self),
                final(out)@.skip(old(out)@.len() as int),
            ),
    {
        let mut walk = walk;
        assert(out@.skip(old(out)@.len() as int) =~= Seq::<Action>::empty());
        if walk.step(memory) {
            self.stage = Stage::Walking(walk);
            return ;
        }
        let mut notes: Vec<Note> = Vec::new();
        let ghost ending = walk;
        let mut found = walk.finish(memory, &mut notes);
        let ghost baseline = found;
        let ghost watching = Note::WatchingEntities {
            total: ending.total,
            watched: ending.buildings.watched@.len() as usize,
            finished: baseline.finished,
        };
        assert(notes@ =~= seq![watching]);
        assert(ending.ends_as(memory, baseline));
        if self.run_began {
            found.arrived_mid_run(&mut notes);
        }
        say_all(out, &notes);
        assert(out@.skip(old(out)@.len() as int) =~= logged(notes@));
        self.buildings = Some(found);
        self.stage = Stage::Bottom;
    }

    /// One tick. Returns `true` once a load has started, and the game is left.
    pub fn step<M: Memory>(
        &mut self,
        sight: &Sight<M>,
        timer: TimerState,
        table: &mut Option<ReferenceTable>,
        out: &mut Vec<Action>,
    ) -> (left: bool)
        requires
            old(self).wf(),
        ensures
            final(self).wf(),
            old(out)@.is_prefix_of(final(out)@),
            old(self).stepped(
                *sight,
                timer,
                *old(table),
                *final(self),
                *final(table),
                left,
                final(out)@.skip(old(out)@.len() as int),
            ),
    {
        let memory = sight.memory;
        let module = sight.module;
        assert(out@.skip(old(out)@.len() as int) =~= Seq::<Action>::empty());
        let mut stage = Stage::Top;
        core::mem::swap(&mut stage, &mut self.stage);
        match stage {
            Stage::Top => {
                return self.top(sight, timer, table, out);
            },
            Stage::Finding(locate, offset) => {
                self.find_start(sight, locate, offset, table, out);
            },
            Stage::Middle => {
                self.stage = Stage::Middle;
                self.middle(memory, module, &sight.settings, timer, out);
            },
            Stage::Refreshing(mut refresh) => {
                if refresh.step(memory) {
                    self.registry.entries = refresh.entries;
                    self.stage = Stage::Describing;
                } else {
                    self.stage = Stage::Refreshing(refresh);
                }
            },
            Stage::Describing => {
                self.describe(memory, module, out);
                assert(out@.skip(old(out)@.len() as int) =~= old(self).asks(memory, *module));
                self.stage = Stage::Resolving;
            },
            Stage::Resolving => {
                self.stage = Stage::Resolving;
                self.resolve(memory, module, out);
            },
            Stage::Walking(walk) => {
                self.walk_on(memory, walk, out);
            },
            Stage::Bottom => {
                self.stage = Stage::Bottom;
                self.bottom(memory, module, &sight.settings, timer, out);
            },
        }
        false
    }
}

/// The paths to the entities, or what is missing.
pub open spec fn entities_in<M: Memory>(
    memory: &M,
    module: Module,
    entries: Seq<(u64, u64)>,
) -> Result<crate::buildings::Paths, Missing> {
    match way_to_entities(memory, module, entries) {
        Err(missing) => Err(missing),
        Ok(reached) => match list_offsets(memory, module, reached.entities) {
            Some((size_offset, items_offset)) => Ok(
                paths_from(reached, size_offset, items_offset),
            ),
            None => Err(Missing::NotAList),
        },
    }
}

/// What is asked about the class of an object that is about to be read.
pub open spec fn asking<M: Memory>(
    memory: &M,
    module: Module,
    wanted: bool,
    object: Option<u64>,
) -> Seq<Action> {
    match object {
        Some(object) => if wanted && module.class_of(memory, object) is None {
            seq![Action::Describe(object)]
        } else {
            Seq::empty()
        },
        None => Seq::empty(),
    }
}

fn ask<M: Memory>(
    memory: &M,
    module: &Module,
    wanted: bool,
    object: Option<u64>,
    out: &mut Vec<Action>,
)
    ensures
        final(out)@ == old(out)@ + asking(memory, *module, wanted, object),
{
    if let Some(object) = object {
        if wanted && module.of_object(memory, object).is_none() {
            out.push(Action::Describe(object));
        }
    }
    assert(out@ =~= old(out)@ + asking(memory, *module, wanted, object));
}

proof fn lemma_two(before: Seq<Action>, one: Seq<Action>, two: Seq<Action>)
    ensures
        before.is_prefix_of(before + one + two),
        (before + one + two).skip(before.len() as int) == one + two,
{
    assert((before + one + two).skip(before.len() as int) =~= one + two);
}

proof fn lemma_after(
    before: Seq<Action>,
    one: Seq<Action>,
    two: Seq<Action>,
    mid: Seq<Action>,
    after: Seq<Action>,
)
    requires
        mid == before + one + two,
        mid.is_prefix_of(after),
    ensures
        before.is_prefix_of(after),
        after.skip(before.len() as int) == one + two + after.skip(mid.len() as int),
{
    assert(after =~= mid + after.skip(mid.len() as int));
    assert(after.take(before.len() as int) =~= before);
    assert(after.skip(before.len() as int) =~= one + two + after.skip(mid.len() as int));
}

} // verus!
