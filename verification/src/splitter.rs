//! The splitter's life in one attached game.
//!
//! Everything hangs off the scene loader: a load is waited out, the run start is
//! bound while it runs, the game's container is looked for once it is over, and
//! the game is then watched until the next load. Each tick does one step of
//! that, and says what the host is to do about it.
use vstd::prelude::*;

use crate::locate::{Accept, Locate, Located};
use crate::memory::{u64_at, Memory, MemoryRange};
use crate::metadata::Module;
use crate::note::{logged, say, say_all, Action, Note, Warning};
use crate::probe;
use crate::run_start::{accepting, binding, bound, initializer_in, RunStart, MAX_INITIALIZERS};
use crate::scan::{Scan, DEFAULT_BUDGET};
use crate::scene::{loader_in, Scene, SceneLoad};
use crate::service::{bus_vtable, event_bus_vtable, service, Found, Locatable};
use crate::settings::Settings;
use crate::singletons::{
    instance_of, layout_of, ContainerSearch, ContainerStage, Layout, Search, Searching, Wanted,
};
use crate::table::{Identify, ReferenceTable, Verdict, MISSES_BEFORE_REFINDING};
use crate::timer::TimerState;
use crate::watch::{start_timer, starting, watching, Sight, Watch};

verus! {

/// Ticks to wait before searching again after a search comes up empty. Without
/// this the retry is a hot loop; the object we are waiting for appears on a
/// human timescale anyway.
pub const RESCAN_DELAY_TICKS: u32 = 120;

/// How many conclusive empty searches it takes to give up skipping the container
/// just left.
///
/// Skipping it is right when the outgoing game's container is still alive. It is
/// wrong when it was found during the load and belongs to the game coming in --
/// and then the skip locks out the only one there is.
pub const GIVE_UP_SKIPPING_AFTER: u32 = 3;

/// How often to look for the reference table before doing without.
pub const TABLE_TRIES: u32 = 3;

/// What holds for as long as the process is attached.
#[derive(Clone, Copy)]
pub struct Session {
    /// The shared validation target.
    pub event_bus_vtable: u64,
    pub clock: Locatable,
    pub day_number: u32,
}

/// What is known on the way to a loaded game.
#[derive(Clone, Copy)]
pub struct Scout {
    pub session: Session,
    pub scene: SceneLoad,
    pub run_start: Option<RunStart>,
}

impl Scout {
    /// What polling the run start leads to, if one is bound.
    pub open spec fn polled<M: Memory>(
        self,
        memory: &M,
        settings: Settings,
        timer: TimerState,
    ) -> (Scout, Seq<Action>) {
        match self.run_start {
            Some(start) => {
                let (after, starts, said) = start.polled(
                    start.state(memory),
                    start.save_name(memory),
                    timer,
                );
                let next = Scout { run_start: Some(after), ..self };
                if starts {
                    (next, said + starting(settings, timer).1)
                } else {
                    (next, said)
                }
            },
            None => (self, Seq::empty()),
        }
    }

    /// Polls the run start, which comes and goes while the container is looked
    /// for.
    fn poll<M: Memory>(
        &mut self,
        memory: &M,
        settings: &Settings,
        timer: TimerState,
        out: &mut Vec<Action>,
    )
        ensures
            *final(self) == old(self).polled(memory, *settings, timer).0,
            final(out)@ == old(out)@ + old(self).polled(memory, *settings, timer).1,
    {
        let mut start = match self.run_start {
            Some(start) => start,
            None => {
                assert(out@ =~= old(out)@ + Seq::<Action>::empty());
                return ;
            },
        };
        let starts = start.poll(memory, timer, out);
        self.run_start = Some(start);
        if starts {
            start_timer(settings, timer, out);
            assert(out@ =~= old(out)@ + old(self).polled(memory, *settings, timer).1);
        }
    }

    /// The same scene, with nothing bound.
    pub open spec fn unbound(self) -> Self {
        Scout { run_start: None, ..self }
    }

    /// What a load that is still running leads to: it is being watched, and what
    /// it is loading is known as soon as the loader says.
    pub open spec fn observing<M: Memory>(self, memory: &M, module: Module) -> Self {
        let told = self.scene.told(self.scene.flag(memory));
        let pending = told.incoming(memory, module);
        Scout {
            scene: SceneLoad {
                observed: true,
                loaded: if pending is Unknown {
                    told.loaded
                } else {
                    pending
                },
                ..told
            },
            ..self
        }
    }

    /// What the end of a load leads to: what the watcher was told about this
    /// game is corrected, since binding happens while the loader may still hold
    /// the previous load's parameters.
    pub open spec fn arrived(self, flag: Option<bool>) -> (Scout, Seq<Action>) {
        let scene = self.scene.told(flag);
        match scene.loaded {
            Scene::Game { new_game } => (
                Scout {
                    scene,
                    run_start: match self.run_start {
                        Some(start) => Some(
                            if start.fired || start.warned_late {
                                start
                            } else {
                                RunStart { new_game: Some(new_game), ..start }
                            },
                        ),
                        None => None,
                    },
                    ..self
                },
                seq![
                    Action::ClearStatus,
                    Action::Log(
                        Note::GameSceneLoaded { new_game, bound: self.run_start is Some },
                    ),
                ],
            ),
            _ => (Scout { scene, ..self }, Seq::empty()),
        }
    }
}

/// Where the splitter is.
pub enum Phase {
    /// Attached, with nothing looked at yet.
    Begin,
    /// Waiting for the game to construct an event bus.
    WaitBus,
    /// Waiting for the game to construct a clock.
    WaitClock(u64),
    /// The game cannot be read; there is nothing more to do in it.
    Over,
    /// About to look for the scene loader; `true` once it was known and lost.
    SeekLoader(Session, bool),
    FindLoader(Session, bool, Locate, u32),
    PauseLoader(Session, bool, u32),
    /// Waiting a load out.
    Load(Scout),
    /// Binding the run start while the load runs.
    BindEarly(Scout, Locate, u32),
    /// A load is over, or none was running.
    Loaded(Scout),
    /// Binding the run start after the load.
    FindStart(Scout, Locate, u32),
    EnsureTable(Scout),
    SweepForTable(Scout, Scan),
    IdentifyTable(Scout, Identify),
    /// About to look for the game's container, where there is a game.
    Enter(Scout),
    Search(Scout, ContainerSearch),
    /// Telling the table from the ranges a search came across.
    IdentifyAfter(Scout, Search, Identify),
    /// A search is over.
    Judge(Scout, Search),
    Pause(Scout, u32),
    Watching(Session, Watch),
}

/// Where watching a game ranks: everything that leads there ranks below.
pub const WATCHING: u32 = 23;

impl Phase {
    /// How far the splitter has come in a process, from nothing known to a game
    /// being watched.
    pub open spec fn rank(self) -> u32 {
        match self {
            Phase::Over => 0,
            Phase::Begin => 1,
            Phase::WaitBus => 2,
            Phase::WaitClock(_) => 3,
            Phase::PauseLoader(_, _, _) => 4,
            Phase::SeekLoader(_, _) => 5,
            Phase::FindLoader(_, _, _, _) => 6,
            Phase::Pause(_, _) => 7,
            Phase::Load(_) => 8,
            Phase::BindEarly(_, _, _) => 9,
            Phase::Loaded(_) => 10,
            Phase::FindStart(_, _, _) => 11,
            Phase::EnsureTable(_) => 12,
            Phase::SweepForTable(_, _) => 13,
            Phase::IdentifyTable(_, _) => 14,
            Phase::Enter(_) => 15,
            Phase::Search(_, search) => (16 + search.stage.rank()) as u32,
            Phase::IdentifyAfter(_, _, _) => 21,
            Phase::Judge(_, _) => 22,
            Phase::Watching(_, watch) => (WATCHING + watch.stage.rank()) as u32,
        }
    }
}

/// Whether a tick goes on after a step that came from one rank to another.
///
/// It does where the step got further: what comes next follows without waiting
/// for anything. One that stays where it is waits for the game or has spent its
/// share of the tick, and one that goes back waits before it tries again: both
/// end the tick. A game that is left is followed at once by whatever replaces
/// it, but only once in a tick, as `fresh` says: one that is left again on the
/// same memory would be left for ever.
pub open spec fn goes_on(from: u32, to: u32, fresh: bool) -> bool {
    to > from || (fresh && leaves(from, to))
}

/// Whether a step that came from one rank to another left a game.
pub open spec fn leaves(from: u32, to: u32) -> bool {
    from >= WATCHING && to < WATCHING
}

/// Whether a tick goes on after a step that came from one rank to another;
/// `fresh` while no game has been left in it.
pub fn runs_on(from: u32, to: u32, fresh: bool) -> (on: bool)
    ensures
        on == goes_on(from, to, fresh),
{
    to > from || (fresh && from >= WATCHING && to < WATCHING)
}

/// The splitter, attached to a process.
pub struct Splitter {
    pub phase: Phase,
    pub table: Option<ReferenceTable>,
    pub table_tries: u32,
    pub probed: bool,
    /// The DI container of the game just left, skipped for the same reason its
    /// objects are: it stays alive, and it holds a clock that is not this
    /// game's.
    pub previous_registry: Option<u64>,
    /// The initializer of the game just left, skipped for the same reason the
    /// container is: freed, its memory reads as a plausible pre-overlay state
    /// and binding to it loses the run start entirely.
    pub previous_run_start: Option<u64>,
    pub empty_scans: u32,
}

impl Splitter {
    pub open spec fn wf(self) -> bool {
        &&& self.empty_scans < GIVE_UP_SKIPPING_AFTER
        &&& self.table_tries <= TABLE_TRIES
        &&& match self.phase {
            Phase::FindLoader(_, _, locate, _) => locate.wf(),
            Phase::BindEarly(_, locate, _) => locate.wf(),
            Phase::FindStart(_, locate, _) => locate.wf(),
            Phase::SweepForTable(_, scan) => scan.wf(),
            Phase::IdentifyTable(_, identify) => identify.wf(),
            Phase::Search(_, search) => search.wf(),
            Phase::IdentifyAfter(_, _, identify) => identify.wf(),
            Phase::Watching(_, watch) => watch.wf(),
            _ => true,
        }
    }

    /// The same splitter, somewhere else.
    pub open spec fn at(self, phase: Phase) -> Self {
        Splitter { phase, ..self }
    }

    pub fn new() -> (splitter: Self)
        ensures
            splitter.wf(),
            splitter == (Splitter {
                phase: Phase::Begin,
                table: None,
                table_tries: 0,
                probed: false,
                previous_registry: None,
                previous_run_start: None,
                empty_scans: 0,
            }),
    {
        Splitter {
            phase: Phase::Begin,
            table: None,
            table_tries: 0,
            probed: false,
            previous_registry: None,
            previous_run_start: None,
            empty_scans: 0,
        }
    }

    /// How far the splitter has come.
    pub fn rank(&self) -> (rank: u32)
        ensures
            rank == self.phase.rank(),
            rank <= WATCHING + 7,
    {
        match &self.phase {
            Phase::Over => 0,
            Phase::Begin => 1,
            Phase::WaitBus => 2,
            Phase::WaitClock(_) => 3,
            Phase::PauseLoader(_, _, _) => 4,
            Phase::SeekLoader(_, _) => 5,
            Phase::FindLoader(_, _, _, _) => 6,
            Phase::Pause(_, _) => 7,
            Phase::Load(_) => 8,
            Phase::BindEarly(_, _, _) => 9,
            Phase::Loaded(_) => 10,
            Phase::FindStart(_, _, _) => 11,
            Phase::EnsureTable(_) => 12,
            Phase::SweepForTable(_, _) => 13,
            Phase::IdentifyTable(_, _) => 14,
            Phase::Enter(_) => 15,
            Phase::Search(_, search) => 16 + search.rank(),
            Phase::IdentifyAfter(_, _, _) => 21,
            Phase::Judge(_, _) => 22,
            Phase::Watching(_, watch) => WATCHING + watch.rank(),
        }
    }

    /// Whether the game cannot be read, and there is nothing more to do in it.
    pub fn is_over(&self) -> (over: bool)
        ensures
            over == (self.phase is Over),
    {
        matches!(self.phase, Phase::Over)
    }

    /// A search begins for an object of `class`.
    pub open spec fn seeks(
        self,
        ranges: Seq<MemoryRange>,
        class: Locatable,
        limit: usize,
        accept: Accept,
        may_sweep: bool,
        locate: Locate,
        table_after: Option<ReferenceTable>,
        notes: Seq<Note>,
    ) -> bool {
        &&& locate.class == class
        &&& locate.limit == limit
        &&& locate.accept == accept
        &&& locate.may_sweep == may_sweep
        &&& locate.begun(ranges, self.table, table_after, notes)
    }

    /// What waiting for the event bus and the clock leads to.
    pub open spec fn waited(self, module: Module) -> (Splitter, Seq<Action>) {
        match self.phase {
            Phase::Begin => (
                self.at(Phase::WaitBus),
                seq![Action::Log(Note::AttachedToRuntime), Action::Log(Note::WaitingForGame)],
            ),
            Phase::WaitBus => match bus_vtable(module) {
                Some(bus) => (self.at(Phase::WaitClock(bus)), Seq::empty()),
                None => (self, Seq::empty()),
            },
            Phase::WaitClock(bus) => match service(
                module,
                "Timberborn.TimeSystem",
                "DayNightCycle",
                bus,
            ) {
                Some(clock) => match module.offset(
                    "Timberborn.TimeSystem"@,
                    "DayNightCycle"@,
                    "DayNumber"@,
                ) {
                    Some(day_number) => (
                        self.at(
                            Phase::SeekLoader(
                                Session { event_bus_vtable: bus, clock, day_number },
                                false,
                            ),
                        ),
                        Seq::empty(),
                    ),
                    None => (
                        self.at(Phase::Over),
                        seq![Action::Warn(Warning::VersionNotSupported)],
                    ),
                },
                None => (self, Seq::empty()),
            },
            _ => (self, Seq::empty()),
        }
    }

    fn wait(&mut self, module: &Module, out: &mut Vec<Action>)
        requires
            old(self).wf(),
            old(self).phase is Begin || old(self).phase is WaitBus || old(self).phase is WaitClock
                || old(self).phase is Over,
        ensures
            final(self).wf(),
            *final(self) == old(self).waited(*module).0,
            final(out)@ == old(out)@ + old(self).waited(*module).1,
    {
        assert(out@ =~= old(out)@ + Seq::<Action>::empty());
        match self.phase {
            Phase::Begin => {
                say(out, Note::AttachedToRuntime);
                say(out, Note::WaitingForGame);
                assert(out@ =~= old(out)@ + old(self).waited(*module).1);
                self.phase = Phase::WaitBus;
            },
            Phase::WaitBus => {
                if let Some(bus) = event_bus_vtable(module) {
                    self.phase = Phase::WaitClock(bus);
                }
            },
            Phase::WaitClock(bus) => {
                if let Some(clock) = Locatable::new(
                    module,
                    "Timberborn.TimeSystem",
                    "DayNightCycle",
                    bus,
                ) {
                    match clock.field(module, "DayNumber") {
                        Some(day_number) => {
                            let session = Session { event_bus_vtable: bus, clock, day_number };
                            self.phase = Phase::SeekLoader(session, false);
                        },
                        None => {
                            out.push(Action::Warn(Warning::VersionNotSupported));
                            assert(out@ =~= old(out)@ + old(self).waited(*module).1);
                            self.phase = Phase::Over;
                        },
                    }
                }
            },
            _ => {},
        }
    }

    /// What looking for the scene loader leads to.
    pub open spec fn sought_loader(
        self,
        ranges: Seq<MemoryRange>,
        module: Module,
        session: Session,
        again: bool,
        after: Splitter,
        asked: Seq<Action>,
    ) -> bool {
        match loader_in(module) {
            Some((class, offset)) => exists|locate: Locate, notes: Seq<Note>|
                {
                    &&& #[trigger] self.seeks(
                        ranges,
                        class,
                        1,
                        Accept { skip: None, below: None },
                        true,
                        locate,
                        after.table,
                        notes,
                    )
                    &&& after == (Splitter {
                        phase: Phase::FindLoader(session, again, locate, offset),
                        table: after.table,
                        ..self
                    })
                    &&& asked == logged(notes)
                },
            None => {
                &&& after == self.at(Phase::PauseLoader(session, again, RESCAN_DELAY_TICKS))
                &&& asked == Seq::<Action>::empty()
            },
        }
    }

    fn seek_loader(
        &mut self,
        ranges: &[MemoryRange],
        module: &Module,
        session: Session,
        again: bool,
        out: &mut Vec<Action>,
    )
        requires
            old(self).at(Phase::Begin).wf(),
        ensures
            final(self).wf(),
            old(out)@.is_prefix_of(final(out)@),
            old(self).sought_loader(
                ranges@,
                *module,
                session,
                again,
                *final(self),
                final(out)@.skip(old(out)@.len() as int),
            ),
    {
        assert(out@.skip(old(out)@.len() as int) =~= Seq::<Action>::empty());
        match SceneLoad::target(module) {
            Some((class, offset)) => {
                let mut notes: Vec<Note> = Vec::new();
                let locate = Locate::begin(
                    class,
                    1,
                    Accept::any(),
                    true,
                    ranges,
                    &mut self.table,
                    &mut notes,
                );
                assert(notes@.skip(0) =~= notes@);
                assert(old(self).seeks(
                    ranges@,
                    class,
                    1,
                    Accept { skip: None, below: None },
                    true,
                    locate,
                    self.table,
                    notes@,
                ));
                say_all(out, &notes);
                assert(out@.skip(old(out)@.len() as int) =~= logged(notes@));
                self.phase = Phase::FindLoader(session, again, locate, offset);
            },
            None => {
                self.phase = Phase::PauseLoader(session, again, RESCAN_DELAY_TICKS);
            },
        }
    }

    /// What a step of the search for the scene loader leads to.
    pub open spec fn found_loader<M: Memory>(
        self,
        sight: Sight<M>,
        session: Session,
        again: bool,
        locate: Locate,
        offset: u32,
        after: Splitter,
        asked: Seq<Action>,
    ) -> bool {
        exists|next: Locate, located: Located, notes: Seq<Note>|
            {
                &&& #[trigger] locate.stepped(
                    sight.memory,
                    sight.ranges@,
                    self.table,
                    next,
                    after.table,
                    located,
                    notes,
                )
                &&& after == (Splitter { phase: after.phase, table: after.table, ..self })
                &&& match located {
                    Located::Pending => {
                        &&& after.phase == Phase::FindLoader(session, again, next, offset)
                        &&& asked == logged(notes)
                    },
                    Located::Done(found) => match found.first() {
                        None => {
                            &&& after.phase == Phase::PauseLoader(
                                session,
                                again,
                                RESCAN_DELAY_TICKS,
                            )
                            &&& asked == logged(notes)
                        },
                        Some(instance) => {
                            &&& after.phase matches Phase::Load(scout) && scout.session == session
                                && scout.run_start is None && is_new_loader(
                                sight.memory,
                                *sight.module,
                                locate.class,
                                offset,
                                instance,
                                scout.scene,
                            ) && asked == logged(
                                notes + loader_notes(scout.scene, again),
                            )
                        },
                    },
                }
            }
    }

    fn find_loader<M: Memory>(
        &mut self,
        sight: &Sight<M>,
        session: Session,
        again: bool,
        locate: Locate,
        offset: u32,
        out: &mut Vec<Action>,
    )
        requires
            old(self).at(Phase::Begin).wf(),
            locate.wf(),
        ensures
            final(self).wf(),
            old(out)@.is_prefix_of(final(out)@),
            old(self).found_loader(
                *sight,
                session,
                again,
                locate,
                offset,
                *final(self),
                final(out)@.skip(old(out)@.len() as int),
            ),
    {
        let mut notes: Vec<Note> = Vec::new();
        let class: Locatable = locate.class;
        let (next, located) = locate.step(sight.memory, sight.ranges, &mut self.table, &mut notes);
        let ghost found_notes = notes@;
        assert(notes@.skip(0) =~= notes@);
        assert(locate.stepped(
            sight.memory,
            sight.ranges@,
            old(self).table,
            next,
            self.table,
            located,
            found_notes,
        ));
        match located {
            Located::Pending => {
                self.phase = Phase::FindLoader(session, again, next, offset);
            },
            Located::Done(found) => match found.one() {
                None => {
                    self.phase = Phase::PauseLoader(session, again, RESCAN_DELAY_TICKS);
                },
                Some(instance) => {
                    let scene = SceneLoad::resolve(
                        sight.memory,
                        sight.module,
                        class,
                        offset,
                        instance,
                        &mut notes,
                    );
                    if again {
                        notes.push(Note::SceneLoading);
                    }
                    assert(notes@ =~= found_notes + loader_notes(scene, again));
                    self.phase = Phase::Load(Scout { session, scene, run_start: None });
                },
            },
        }
        say_all(out, &notes);
        assert(out@.skip(old(out)@.len() as int) =~= logged(notes@));
    }
}

impl Splitter {
    /// What beginning to look for the run start leads to.
    pub open spec fn sought_start(
        self,
        ranges: Seq<MemoryRange>,
        class: Locatable,
        offset: u32,
        require_pre_ui: bool,
        may_sweep: bool,
        locate: Locate,
        table_after: Option<ReferenceTable>,
        asked: Seq<Action>,
    ) -> bool {
        exists|notes: Seq<Note>|
            {
                &&& #[trigger] self.seeks(
                    ranges,
                    class,
                    MAX_INITIALIZERS,
                    accepting(offset, self.previous_run_start, require_pre_ui),
                    may_sweep,
                    locate,
                    table_after,
                    notes,
                )
                &&& asked == logged(notes)
            }
    }

    fn seek_start(
        &mut self,
        ranges: &[MemoryRange],
        class: Locatable,
        offset: u32,
        require_pre_ui: bool,
        may_sweep: bool,
        out: &mut Vec<Action>,
    ) -> (locate: Locate)
        ensures
            locate.wf(),
            *final(self) == (Splitter { table: final(self).table, ..*old(self) }),
            old(out)@.is_prefix_of(final(out)@),
            old(self).sought_start(
                ranges@,
                class,
                offset,
                require_pre_ui,
                may_sweep,
                locate,
                final(self).table,
                final(out)@.skip(old(out)@.len() as int),
            ),
    {
        let mut notes: Vec<Note> = Vec::new();
        let accept = RunStart::acceptable(offset, self.previous_run_start, require_pre_ui);
        let locate = Locate::begin(
            class,
            MAX_INITIALIZERS,
            accept,
            may_sweep,
            ranges,
            &mut self.table,
            &mut notes,
        );
        assert(notes@.skip(0) =~= notes@);
        assert(old(self).seeks(
            ranges@,
            class,
            MAX_INITIALIZERS,
            accepting(offset, old(self).previous_run_start, require_pre_ui),
            may_sweep,
            locate,
            self.table,
            notes@,
        ));
        say_all(out, &notes);
        assert(out@.skip(old(out)@.len() as int) =~= logged(notes@));
        locate
    }

    /// What a step of waiting a load out leads to.
    ///
    /// Nothing found during a load belongs to the world that comes out of it, so
    /// the load is waited out first. The parameters the loader holds are sampled
    /// throughout, since on the rising edge they are still the previous load's.
    /// The run start is bound here rather than after the load: once the load has
    /// finished, the settlement-name dialog is the only thing left before the
    /// overlay. It is asked of the reference table alone where there is one,
    /// since it can be asked again.
    pub open spec fn loaded<M: Memory>(
        self,
        sight: Sight<M>,
        scout: Scout,
        after: Splitter,
        asked: Seq<Action>,
    ) -> bool {
        let flag = scout.scene.flag(sight.memory);
        if flag == Some(true) {
            let watching = scout.observing(sight.memory, *sight.module);
            let target = initializer_in(*sight.module, scout.session.event_bus_vtable);
            if scout.run_start is None && watching.scene.loaded is Game && target is Some {
                &&& after == (Splitter { phase: after.phase, table: after.table, ..self })
                &&& after.phase matches Phase::BindEarly(next, locate, offset) && next == watching
                    && offset == (target->0).1 && self.sought_start(
                    sight.ranges@,
                    (target->0).0,
                    (target->0).1,
                    true,
                    self.table is None,
                    locate,
                    after.table,
                    asked,
                )
            } else {
                after == self.at(Phase::Load(watching)) && asked == Seq::<Action>::empty()
            }
        } else {
            let (next, said) = scout.arrived(flag);
            after == self.at(Phase::Loaded(next)) && asked == said
        }
    }

    fn load<M: Memory>(&mut self, sight: &Sight<M>, scout: Scout, out: &mut Vec<Action>)
        requires
            old(self).at(Phase::Begin).wf(),
        ensures
            final(self).wf(),
            old(out)@.is_prefix_of(final(out)@),
            old(self).loaded(
                *sight,
                scout,
                *final(self),
                final(out)@.skip(old(out)@.len() as int),
            ),
    {
        assert(out@.skip(old(out)@.len() as int) =~= Seq::<Action>::empty());
        let mut scout = scout;
        let ghost before = scout;
        let loading = scout.scene.is_loading(sight.memory);
        if loading == Some(true) {
            // We are here for this one, whatever it turns out to be.
            scout.scene.observed = true;
            let pending = scout.scene.pending(sight.memory, sight.module);
            if pending != Scene::Unknown {
                scout.scene.loaded = pending;
            }
            assert(scout == before.observing(sight.memory, *sight.module));
            let is_game = matches!(scout.scene.loaded, Scene::Game { .. });
            if scout.run_start.is_none() && is_game {
                if let Some((class, offset)) = RunStart::target(
                    sight.module,
                    scout.session.event_bus_vtable,
                ) {
                    let may_sweep = self.table.is_none();
                    let locate = self.seek_start(sight.ranges, class, offset, true, may_sweep, out);
                    self.phase = Phase::BindEarly(scout, locate, offset);
                    return ;
                }
            }
            self.phase = Phase::Load(scout);
            return ;
        }
        if let Scene::Game { new_game } = scout.scene.loaded {
            let bound = scout.run_start.is_some();
            if let Some(start) = &mut scout.run_start {
                start.expect_new_game(new_game);
            }
            // A fresh game is a fresh slate: a warning about the last one must
            // not sit on screen through this one.
            out.push(Action::ClearStatus);
            out.push(Action::Log(Note::GameSceneLoaded { new_game, bound }));
        }
        assert(scout == before.arrived(loading).0);
        assert(out@.skip(old(out)@.len() as int) =~= before.arrived(loading).1);
        self.phase = Phase::Loaded(scout);
    }

    /// What a step of the search for the run start leads to: `next` where it
    /// goes on, and the watcher once there is one.
    pub open spec fn found_start<M: Memory>(
        self,
        sight: Sight<M>,
        locate: Locate,
        offset: u32,
        new_game: Option<bool>,
        watched_load: bool,
        next: Option<Locate>,
        start: Option<RunStart>,
        table_after: Option<ReferenceTable>,
        asked: Seq<Action>,
    ) -> bool {
        exists|mid: Locate, located: Located, notes: Seq<Note>|
            {
                &&& #[trigger] locate.stepped(
                    sight.memory,
                    sight.ranges@,
                    self.table,
                    mid,
                    table_after,
                    located,
                    notes,
                )
                &&& match located {
                    Located::Pending => next == Some(mid) && start is None && asked == logged(
                        notes,
                    ),
                    Located::Done(found) => {
                        &&& next is None
                        &&& match found.first() {
                            Some(instance) => {
                                &&& start == Some(
                                    bound(
                                        *sight.module,
                                        locate.class,
                                        offset,
                                        instance,
                                        new_game,
                                        watched_load,
                                    ),
                                )
                                &&& asked == logged(notes) + binding(start->0)
                            },
                            None => start is None && asked == logged(notes),
                        }
                    },
                }
            }
    }

    fn find_start<M: Memory>(
        &mut self,
        sight: &Sight<M>,
        locate: Locate,
        offset: u32,
        new_game: Option<bool>,
        watched_load: bool,
        out: &mut Vec<Action>,
    ) -> (result: (Option<Locate>, Option<RunStart>))
        requires
            locate.wf(),
        ensures
            result.0 matches Some(next) ==> next.wf(),
            *final(self) == (Splitter { table: final(self).table, ..*old(self) }),
            old(out)@.is_prefix_of(final(out)@),
            old(self).found_start(
                *sight,
                locate,
                offset,
                new_game,
                watched_load,
                result.0,
                result.1,
                final(self).table,
                final(out)@.skip(old(out)@.len() as int),
            ),
    {
        let mut notes: Vec<Note> = Vec::new();
        let class: Locatable = locate.class;
        let (mid, located) = locate.step(sight.memory, sight.ranges, &mut self.table, &mut notes);
        assert(notes@.skip(0) =~= notes@);
        assert(locate.stepped(
            sight.memory,
            sight.ranges@,
            old(self).table,
            mid,
            self.table,
            located,
            notes@,
        ));
        say_all(out, &notes);
        assert(out@.skip(old(out)@.len() as int) =~= logged(notes@));
        match located {
            Located::Pending => (Some(mid), None),
            Located::Done(found) => match found.one() {
                Some(instance) => {
                    let start = RunStart::bind(
                        sight.module,
                        class,
                        offset,
                        instance,
                        new_game,
                        watched_load,
                        out,
                    );
                    assert(out@.skip(old(out)@.len() as int) =~= logged(notes@) + binding(start));
                    (None, Some(start))
                },
                None => (None, None),
            },
        }
    }

    /// What a step of binding the run start during a load leads to.
    pub open spec fn bound_early<M: Memory>(
        self,
        sight: Sight<M>,
        scout: Scout,
        locate: Locate,
        offset: u32,
        after: Splitter,
        asked: Seq<Action>,
    ) -> bool {
        exists|next: Option<Locate>, start: Option<RunStart>|
            {
                &&& #[trigger] self.found_start(
                    sight,
                    locate,
                    offset,
                    scout.scene.loaded.newness(),
                    true,
                    next,
                    start,
                    after.table,
                    asked,
                )
                &&& after == (Splitter { phase: after.phase, table: after.table, ..self })
                &&& after.phase == match next {
                    Some(next) => Phase::BindEarly(scout, next, offset),
                    None => Phase::Load(
                        if start is Some {
                            Scout { run_start: start, ..scout }
                        } else {
                            scout
                        },
                    ),
                }
            }
    }

    fn bind_early<M: Memory>(
        &mut self,
        sight: &Sight<M>,
        scout: Scout,
        locate: Locate,
        offset: u32,
        out: &mut Vec<Action>,
    )
        requires
            old(self).at(Phase::Begin).wf(),
            locate.wf(),
        ensures
            final(self).wf(),
            old(out)@.is_prefix_of(final(out)@),
            old(self).bound_early(
                *sight,
                scout,
                locate,
                offset,
                *final(self),
                final(out)@.skip(old(out)@.len() as int),
            ),
    {
        let new_game = scout.scene.loaded.new_game();
        let (next, start) = self.find_start(sight, locate, offset, new_game, true, out);
        assert(old(self).found_start(
            *sight,
            locate,
            offset,
            new_game,
            true,
            next,
            start,
            self.table,
            out@.skip(old(out)@.len() as int),
        ));
        let mut scout = scout;
        if start.is_some() {
            scout.run_start = start;
        }
        match next {
            Some(next) => {
                self.phase = Phase::BindEarly(scout, next, offset);
            },
            None => {
                self.phase = Phase::Load(scout);
            },
        }
    }

    /// What the end of a load leads to: the run start is looked for where none
    /// is bound and there may be a game.
    ///
    /// The run start is the timing-critical watcher, and the settlement-name
    /// dialog is the entire window for binding it, so it is resolved before
    /// anything else.
    pub open spec fn started_after<M: Memory>(
        self,
        sight: Sight<M>,
        scout: Scout,
        after: Splitter,
        asked: Seq<Action>,
    ) -> bool {
        let target = initializer_in(*sight.module, scout.session.event_bus_vtable);
        if scout.run_start is None && !scout.scene.loaded.no_game() && target is Some {
            &&& after == (Splitter { phase: after.phase, table: after.table, ..self })
            &&& after.phase matches Phase::FindStart(next, locate, offset) && next == scout
                && offset == (target->0).1 && self.sought_start(
                sight.ranges@,
                (target->0).0,
                (target->0).1,
                false,
                true,
                locate,
                after.table,
                asked,
            )
        } else {
            after == self.at(Phase::EnsureTable(scout)) && asked == Seq::<Action>::empty()
        }
    }

    fn start_after<M: Memory>(&mut self, sight: &Sight<M>, scout: Scout, out: &mut Vec<Action>)
        requires
            old(self).at(Phase::Begin).wf(),
        ensures
            final(self).wf(),
            old(out)@.is_prefix_of(final(out)@),
            old(self).started_after(
                *sight,
                scout,
                *final(self),
                final(out)@.skip(old(out)@.len() as int),
            ),
    {
        assert(out@.skip(old(out)@.len() as int) =~= Seq::<Action>::empty());
        if scout.run_start.is_none() && !scout.scene.loaded.is_no_game() {
            if let Some((class, offset)) = RunStart::target(
                sight.module,
                scout.session.event_bus_vtable,
            ) {
                let locate = self.seek_start(sight.ranges, class, offset, false, true, out);
                self.phase = Phase::FindStart(scout, locate, offset);
                return ;
            }
        }
        self.phase = Phase::EnsureTable(scout);
    }

    /// What a step of binding the run start after a load leads to.
    pub open spec fn bound_late<M: Memory>(
        self,
        sight: Sight<M>,
        scout: Scout,
        locate: Locate,
        offset: u32,
        after: Splitter,
        asked: Seq<Action>,
    ) -> bool {
        exists|next: Option<Locate>, start: Option<RunStart>|
            {
                &&& #[trigger] self.found_start(
                    sight,
                    locate,
                    offset,
                    scout.scene.loaded.newness(),
                    scout.scene.observed,
                    next,
                    start,
                    after.table,
                    asked,
                )
                &&& after == (Splitter { phase: after.phase, table: after.table, ..self })
                &&& after.phase == match next {
                    Some(next) => Phase::FindStart(scout, next, offset),
                    None => Phase::EnsureTable(
                        if start is Some {
                            Scout { run_start: start, ..scout }
                        } else {
                            scout
                        },
                    ),
                }
            }
    }

    fn bind_late<M: Memory>(
        &mut self,
        sight: &Sight<M>,
        scout: Scout,
        locate: Locate,
        offset: u32,
        out: &mut Vec<Action>,
    )
        requires
            old(self).at(Phase::Begin).wf(),
            locate.wf(),
        ensures
            final(self).wf(),
            old(out)@.is_prefix_of(final(out)@),
            old(self).bound_late(
                *sight,
                scout,
                locate,
                offset,
                *final(self),
                final(out)@.skip(old(out)@.len() as int),
            ),
    {
        let new_game = scout.scene.loaded.new_game();
        let watched = scout.scene.observed;
        let (next, start) = self.find_start(sight, locate, offset, new_game, watched, out);
        assert(old(self).found_start(
            *sight,
            locate,
            offset,
            new_game,
            watched,
            next,
            start,
            self.table,
            out@.skip(old(out)@.len() as int),
        ));
        let mut scout = scout;
        if start.is_some() {
            scout.run_start = start;
        }
        match next {
            Some(next) => {
                self.phase = Phase::FindStart(scout, next, offset);
            },
            None => {
                self.phase = Phase::EnsureTable(scout);
            },
        }
    }
}

impl Splitter {
    /// What seeing to the reference table leads to: one that has gone, or keeps
    /// missing what is there, is dropped, and where there is none it is looked
    /// for, a few times.
    pub open spec fn ensured<M: Memory>(
        self,
        sight: Sight<M>,
        scout: Scout,
        after: Splitter,
        asked: Seq<Action>,
    ) -> bool {
        let gone = self.table matches Some(table) && (table.misses >= MISSES_BEFORE_REFINDING
            || u64_at(sight.memory, table.base) is None);
        let kept = if gone {
            Splitter { table: None, table_tries: 0, ..self }
        } else {
            self
        };
        if kept.table is None && kept.table_tries < TABLE_TRIES {
            &&& after == (Splitter {
                phase: after.phase,
                table_tries: (kept.table_tries + 1) as u32,
                ..kept
            })
            &&& after.phase matches Phase::SweepForTable(next, scan) && next == scout
                && scan.fresh(sight.ranges@, scout.scene.instance)
            &&& asked == seq![Action::Log(Note::LookingForTable)]
        } else {
            after == kept.at(Phase::Enter(scout)) && asked == Seq::<Action>::empty()
        }
    }

    fn ensure_table<M: Memory>(&mut self, sight: &Sight<M>, scout: Scout, out: &mut Vec<Action>)
        requires
            old(self).at(Phase::Begin).wf(),
        ensures
            final(self).wf(),
            old(out)@.is_prefix_of(final(out)@),
            old(self).ensured(
                *sight,
                scout,
                *final(self),
                final(out)@.skip(old(out)@.len() as int),
            ),
    {
        assert(out@.skip(old(out)@.len() as int) =~= Seq::<Action>::empty());
        let gone = match &self.table {
            Some(table) => table.is_stale() || !table.still_mapped(sight.memory),
            None => false,
        };
        if gone {
            self.table = None;
            self.table_tries = 0;
        }
        if self.table.is_none() && self.table_tries < TABLE_TRIES {
            self.table_tries = self.table_tries + 1;
            say(out, Note::LookingForTable);
            assert(out@.skip(old(out)@.len() as int) =~= seq![Action::Log(Note::LookingForTable)]);
            let scan = Scan::new(sight.ranges, scout.scene.instance);
            self.phase = Phase::SweepForTable(scout, scan);
        } else {
            self.phase = Phase::Enter(scout);
        }
    }

    /// What is said when the table was looked for once too often.
    pub open spec fn given_up(self) -> Seq<Note> {
        if self.table_tries >= TABLE_TRIES {
            seq![Note::TableGivenUp]
        } else {
            Seq::empty()
        }
    }

    /// What a step of sweeping for the table leads to.
    pub open spec fn swept_for_table<M: Memory>(
        self,
        sight: Sight<M>,
        scout: Scout,
        scan: Scan,
        after: Splitter,
        asked: Seq<Action>,
    ) -> bool {
        let anchor = scout.scene.instance;
        exists|next: Scan, done: bool|
            {
                &&& #[trigger] scan.stepped(sight.memory, DEFAULT_BUDGET as int, next, done)
                &&& if !done {
                    &&& after == self.at(Phase::SweepForTable(scout, next))
                    &&& asked == Seq::<Action>::empty()
                } else {
                    let counted = Note::TableReferences {
                        count: next.found@.len() as usize,
                        anchor,
                    };
                    exists|identify: Option<Identify>|
                        {
                            &&& #[trigger] Identify::begun(
                                sight.memory,
                                sight.ranges@,
                                anchor,
                                next.found_ranges@,
                                identify,
                            )
                            &&& match identify {
                                Some(identify) => {
                                    &&& after == self.at(Phase::IdentifyTable(scout, identify))
                                    &&& asked == logged(seq![counted])
                                },
                                None => {
                                    &&& after == self.at(Phase::Enter(scout))
                                    &&& asked == logged(seq![counted] + self.given_up())
                                },
                            }
                        }
                }
            }
    }

    fn sweep_for_table<M: Memory>(
        &mut self,
        sight: &Sight<M>,
        scout: Scout,
        scan: Scan,
        out: &mut Vec<Action>,
    )
        requires
            old(self).at(Phase::Begin).wf(),
            scan.wf(),
        ensures
            final(self).wf(),
            old(out)@.is_prefix_of(final(out)@),
            old(self).swept_for_table(
                *sight,
                scout,
                scan,
                *final(self),
                final(out)@.skip(old(out)@.len() as int),
            ),
    {
        assert(out@.skip(old(out)@.len() as int) =~= Seq::<Action>::empty());
        let anchor: u64 = scout.scene.instance;
        let mut scan = scan;
        let ghost before = scan;
        let done = scan.step(sight.memory, DEFAULT_BUDGET);
        assert(before.stepped(sight.memory, DEFAULT_BUDGET as int, scan, done));
        if !done {
            self.phase = Phase::SweepForTable(scout, scan);
            return ;
        }
        let mut notes: Vec<Note> = Vec::new();
        notes.push(Note::TableReferences { count: scan.found.len(), anchor });
        let identify = Identify::begin(
            sight.memory,
            sight.ranges,
            anchor,
            scan.found_ranges.as_slice(),
        );
        match identify {
            Some(identify) => {
                self.phase = Phase::IdentifyTable(scout, identify);
            },
            None => {
                if self.table_tries >= TABLE_TRIES {
                    notes.push(Note::TableGivenUp);
                }
                self.phase = Phase::Enter(scout);
            },
        }
        let ghost counted = Note::TableReferences { count: scan.found@.len() as usize, anchor };
        assert(notes@ =~= if identify is Some {
            seq![counted]
        } else {
            seq![counted] + old(self).given_up()
        });
        say_all(out, &notes);
        assert(out@.skip(old(out)@.len() as int) =~= logged(notes@));
    }

    /// What a step of telling the table from heap sections leads to; `then` is
    /// where the splitter goes once that is over.
    pub open spec fn identified<M: Memory>(
        self,
        sight: Sight<M>,
        identify: Identify,
        next: Option<Identify>,
        table_after: Option<ReferenceTable>,
        said: Seq<Note>,
    ) -> bool {
        exists|mid: Identify, verdict: Verdict|
            {
                &&& #[trigger] identify.stepped(
                    sight.memory,
                    DEFAULT_BUDGET as int,
                    mid,
                    verdict,
                    said,
                )
                &&& match verdict {
                    Verdict::Pending => next == Some(mid) && table_after == self.table,
                    Verdict::Found(table) => next is None && table_after == Some(table),
                    Verdict::Nothing => next is None && table_after == self.table,
                }
            }
    }

    fn identify<M: Memory>(
        &mut self,
        sight: &Sight<M>,
        identify: Identify,
        notes: &mut Vec<Note>,
    ) -> (next: Option<Identify>)
        requires
            identify.wf(),
        ensures
            next matches Some(i) ==> i.wf(),
            *final(self) == (Splitter { table: final(self).table, ..*old(self) }),
            old(notes)@.is_prefix_of(final(notes)@),
            old(self).identified(
                *sight,
                identify,
                next,
                final(self).table,
                final(notes)@.skip(old(notes)@.len() as int),
            ),
    {
        let mut identify = identify;
        let ghost before = identify;
        let verdict = identify.step(sight.memory, DEFAULT_BUDGET, notes);
        assert(before.stepped(
            sight.memory,
            DEFAULT_BUDGET as int,
            identify,
            verdict,
            notes@.skip(old(notes)@.len() as int),
        ));
        match verdict {
            Verdict::Pending => Some(identify),
            Verdict::Found(table) => {
                self.table = Some(table);
                None
            },
            Verdict::Nothing => None,
        }
    }

    /// What a step of identifying the table leads to.
    pub open spec fn table_identified<M: Memory>(
        self,
        sight: Sight<M>,
        scout: Scout,
        identify: Identify,
        after: Splitter,
        asked: Seq<Action>,
    ) -> bool {
        exists|next: Option<Identify>, notes: Seq<Note>|
            {
                &&& #[trigger] self.identified(sight, identify, next, after.table, notes)
                &&& after == (Splitter { phase: after.phase, table: after.table, ..self })
                &&& match next {
                    Some(next) => {
                        &&& after.phase == Phase::IdentifyTable(scout, next)
                        &&& asked == logged(notes)
                    },
                    None => {
                        &&& after.phase == Phase::Enter(scout)
                        &&& asked == if after.table is None {
                            logged(notes + self.given_up())
                        } else {
                            logged(notes)
                        }
                    },
                }
            }
    }

    fn identify_table<M: Memory>(
        &mut self,
        sight: &Sight<M>,
        scout: Scout,
        identify: Identify,
        out: &mut Vec<Action>,
    )
        requires
            old(self).at(Phase::Begin).wf(),
            identify.wf(),
        ensures
            final(self).wf(),
            old(out)@.is_prefix_of(final(out)@),
            old(self).table_identified(
                *sight,
                scout,
                identify,
                *final(self),
                final(out)@.skip(old(out)@.len() as int),
            ),
    {
        let mut notes: Vec<Note> = Vec::new();
        let next = self.identify(sight, identify, &mut notes);
        let ghost said = notes@;
        assert(notes@.skip(0) =~= notes@);
        assert(old(self).identified(*sight, identify, next, self.table, said));
        match next {
            Some(next) => {
                self.phase = Phase::IdentifyTable(scout, next);
            },
            None => {
                if self.table.is_none() && self.table_tries >= TABLE_TRIES {
                    notes.push(Note::TableGivenUp);
                }
                self.phase = Phase::Enter(scout);
            },
        }
        assert(notes@ =~= if next is None && self.table is None {
            said + old(self).given_up()
        } else {
            said
        });
        say_all(out, &notes);
        assert(out@.skip(old(out)@.len() as int) =~= logged(notes@));
    }

    /// What looking for the game's container begins with.
    ///
    /// Not in a game, there is nothing to watch: the containers still lying
    /// around belong to games already left, and looking for one only finds a
    /// dead one.
    pub open spec fn entered(self, module: Module, scout: Scout, after: Splitter) -> bool {
        if scout.scene.loaded.no_game() {
            after == self.at(Phase::Pause(scout, RESCAN_DELAY_TICKS))
        } else {
            match layout_of(module) {
                Some(layout) => after == self.at(
                    Phase::Search(
                        scout,
                        ContainerSearch {
                            wanted: Wanted {
                                layout,
                                skip: self.previous_registry,
                                required: scout.session.clock.vtable,
                            },
                            anchor: if self.table is None {
                                Some(scout.scene.instance)
                            } else {
                                None
                            },
                            stage: ContainerStage::Begin,
                        },
                    ),
                ),
                None => {
                    &&& after == self.at(after.phase)
                    &&& after.phase matches Phase::Judge(next, search) && next == scout
                        && search.registry is None && !search.conclusive
                        && search.table_candidates@.len() == 0
                },
            }
        }
    }

    fn enter(&mut self, module: &Module, scout: Scout)
        requires
            old(self).at(Phase::Begin).wf(),
        ensures
            final(self).wf(),
            old(self).entered(*module, scout, *final(self)),
    {
        if scout.scene.loaded.is_no_game() {
            self.phase = Phase::Pause(scout, RESCAN_DELAY_TICKS);
            return ;
        }
        match Layout::resolve(module) {
            Some(layout) => {
                let wanted = Wanted {
                    layout,
                    skip: self.previous_registry,
                    required: scout.session.clock.vtable,
                };
                let anchor = if self.table.is_none() {
                    Some(scout.scene.instance)
                } else {
                    None
                };
                self.phase = Phase::Search(scout, ContainerSearch::begin(wanted, anchor));
            },
            None => {
                self.phase = Phase::Judge(scout, Search::inconclusive());
            },
        }
    }

    /// Where a finished search leads: to the table first, where there is none
    /// and the sweep came across ranges that may be one.
    pub open spec fn search_over<M: Memory>(
        self,
        sight: Sight<M>,
        scout: Scout,
        search: Search,
        table: Option<ReferenceTable>,
        phase: Phase,
    ) -> bool {
        if table is None && search.table_candidates@.len() > 0 {
            exists|identify: Option<Identify>|
                {
                    &&& #[trigger] Identify::begun(
                        sight.memory,
                        sight.ranges@,
                        scout.scene.instance,
                        search.table_candidates@,
                        identify,
                    )
                    &&& phase == match identify {
                        Some(identify) => Phase::IdentifyAfter(scout, search, identify),
                        None => Phase::Judge(scout, search),
                    }
                }
        } else {
            phase == Phase::Judge(scout, search)
        }
    }

    /// What a step of the search for the container leads to.
    pub open spec fn searched<M: Memory>(
        self,
        sight: Sight<M>,
        scout: Scout,
        search: ContainerSearch,
        after: Splitter,
        asked: Seq<Action>,
    ) -> bool {
        exists|next: ContainerSearch, searching: Searching, notes: Seq<Note>|
            {
                &&& #[trigger] search.stepped(
                    sight.memory,
                    sight.ranges@,
                    self.table,
                    next,
                    after.table,
                    searching,
                    notes,
                )
                &&& after == (Splitter { phase: after.phase, table: after.table, ..self })
                &&& asked == logged(notes)
                &&& match searching {
                    Searching::Pending => after.phase == Phase::Search(scout, next),
                    Searching::Done(found) => self.search_over(
                        sight,
                        scout,
                        found,
                        after.table,
                        after.phase,
                    ),
                }
            }
    }

    fn search<M: Memory>(
        &mut self,
        sight: &Sight<M>,
        scout: Scout,
        search: ContainerSearch,
        out: &mut Vec<Action>,
    )
        requires
            old(self).at(Phase::Begin).wf(),
            search.wf(),
        ensures
            final(self).wf(),
            old(out)@.is_prefix_of(final(out)@),
            old(self).searched(
                *sight,
                scout,
                search,
                *final(self),
                final(out)@.skip(old(out)@.len() as int),
            ),
    {
        let mut notes: Vec<Note> = Vec::new();
        let (next, searching) = search.step(
            sight.memory,
            sight.ranges,
            &mut self.table,
            &mut notes,
        );
        assert(notes@.skip(0) =~= notes@);
        assert(search.stepped(
            sight.memory,
            sight.ranges@,
            old(self).table,
            next,
            self.table,
            searching,
            notes@,
        ));
        say_all(out, &notes);
        assert(out@.skip(old(out)@.len() as int) =~= logged(notes@));
        match searching {
            Searching::Pending => {
                self.phase = Phase::Search(scout, next);
            },
            Searching::Done(found) => {
                if self.table.is_none() && found.table_candidates.len() > 0 {
                    let identify = Identify::begin(
                        sight.memory,
                        sight.ranges,
                        scout.scene.instance,
                        found.table_candidates.as_slice(),
                    );
                    self.phase = match identify {
                        Some(identify) => Phase::IdentifyAfter(scout, found, identify),
                        None => Phase::Judge(scout, found),
                    };
                } else {
                    self.phase = Phase::Judge(scout, found);
                }
            },
        }
    }

    /// What a step of identifying the table after a search leads to.
    pub open spec fn after_identified<M: Memory>(
        self,
        sight: Sight<M>,
        scout: Scout,
        search: Search,
        identify: Identify,
        after: Splitter,
        asked: Seq<Action>,
    ) -> bool {
        exists|next: Option<Identify>, notes: Seq<Note>|
            {
                &&& #[trigger] self.identified(sight, identify, next, after.table, notes)
                &&& after == (Splitter { phase: after.phase, table: after.table, ..self })
                &&& asked == logged(notes)
                &&& after.phase == match next {
                    Some(next) => Phase::IdentifyAfter(scout, search, next),
                    None => Phase::Judge(scout, search),
                }
            }
    }

    fn identify_after<M: Memory>(
        &mut self,
        sight: &Sight<M>,
        scout: Scout,
        search: Search,
        identify: Identify,
        out: &mut Vec<Action>,
    )
        requires
            old(self).at(Phase::Begin).wf(),
            identify.wf(),
        ensures
            final(self).wf(),
            old(out)@.is_prefix_of(final(out)@),
            old(self).after_identified(
                *sight,
                scout,
                search,
                identify,
                *final(self),
                final(out)@.skip(old(out)@.len() as int),
            ),
    {
        let mut notes: Vec<Note> = Vec::new();
        let next = self.identify(sight, identify, &mut notes);
        assert(notes@.skip(0) =~= notes@);
        assert(old(self).identified(*sight, identify, next, self.table, notes@));
        say_all(out, &notes);
        assert(out@.skip(old(out)@.len() as int) =~= logged(notes@));
        self.phase = match next {
            Some(next) => Phase::IdentifyAfter(scout, search, next),
            None => Phase::Judge(scout, search),
        };
    }
}

/// Lines for the log.
pub open spec fn lined(lines: Seq<String>) -> Seq<Action> {
    lines.map_values(|line: String| Action::Line(line))
}

fn say_lines(out: &mut Vec<Action>, lines: Vec<String>)
    ensures
        final(out)@ == old(out)@ + lined(lines@),
{
    let mut lines = lines;
    let ghost all = lines@;
    let mut reversed: Vec<String> = Vec::new();
    while lines.len() > 0
        invariant
            lines@ + reversed@.reverse() == all,
        decreases lines@.len(),
    {
        let ghost before = lines@;
        let ghost had = reversed@;
        let line = match lines.pop() {
            Some(line) => line,
            None => {
                return ;
            },
        };
        reversed.push(line);
        assert(lines@ + reversed@.reverse() =~= before + had.reverse());
    }
    assert(reversed@.reverse() =~= all);
    let ghost done: int = 0;
    assert(out@ =~= old(out)@ + lined(all.take(0)));
    while reversed.len() > 0
        invariant
            0 <= done <= all.len(),
            reversed@.len() == all.len() - done,
            reversed@.reverse() == all.skip(done),
            out@ == old(out)@ + lined(all.take(done)),
        decreases reversed@.len(),
    {
        let ghost before = reversed@;
        let line = match reversed.pop() {
            Some(line) => line,
            None => {
                return ;
            },
        };
        proof {
            assert(before.reverse()[0] == line);
            assert(all.skip(done)[0] == line);
            assert(all[done] == line);
            assert(reversed@.reverse() =~= before.reverse().drop_first());
            assert(all.skip(done + 1) =~= all.skip(done).drop_first());
            assert(all.take(done + 1) =~= all.take(done).push(line));
        }
        let ghost had = out@;
        out.push(Action::Line(line));
        proof {
            done = done + 1;
            assert(lined(all.take(done)) =~= lined(all.take(done - 1)).push(Action::Line(line)));
            assert(out@ =~= old(out)@ + lined(all.take(done)));
        }
    }
    assert(all.take(done) =~= all);
}

impl Splitter {
    /// What is said when the game is first looked at closely: every name the
    /// design depends on, once.
    pub open spec fn probing(self, module: Module, asked: Seq<Action>) -> bool {
        if self.probed {
            asked == Seq::<Action>::empty()
        } else {
            exists|lines: Seq<String>|
                {
                    &&& probe::texts(lines) == probe::report_lines(module)
                    &&& asked == #[trigger] lined(lines) + if probe::all_resolved(module) {
                        Seq::empty()
                    } else {
                        seq![Action::Warn(Warning::VersionDoubtful)]
                    }
                }
        }
    }

    /// What a search that found no container leads to.
    ///
    /// Repeatedly finding nothing else means the skipped container is the only
    /// one there is, so it cannot be a game we left: it is this game's, found
    /// early. Only a conclusive search counts: an incomplete one says nothing.
    pub open spec fn came_up_empty(self, scout: Scout, conclusive: bool) -> (Splitter, Seq<Note>) {
        let counts = conclusive && self.previous_registry is Some;
        let gives_up = counts && self.empty_scans + 1 >= GIVE_UP_SKIPPING_AFTER;
        (
            Splitter {
                phase: Phase::Pause(scout, RESCAN_DELAY_TICKS),
                empty_scans: if gives_up {
                    0
                } else if counts {
                    (self.empty_scans + 1) as u32
                } else {
                    self.empty_scans
                },
                previous_registry: if gives_up {
                    None
                } else {
                    self.previous_registry
                },
                ..self
            },
            if gives_up {
                seq![Note::NoContainer { conclusive }, Note::NoLongerSkipping]
            } else {
                seq![Note::NoContainer { conclusive }]
            },
        )
    }

    /// What the outcome of a search leads to.
    pub open spec fn judged(
        self,
        module: Module,
        scout: Scout,
        search: Search,
        after: Splitter,
        asked: Seq<Action>,
    ) -> bool {
        match search.registry {
            None => {
                let (empty, notes) = self.came_up_empty(scout, search.conclusive);
                after == empty && asked == logged(notes)
            },
            Some(registry) => {
                let clock = scout.session.clock;
                let found = Splitter {
                    empty_scans: 0,
                    previous_registry: Some(registry.repository),
                    ..self
                };
                match instance_of(registry.entries@, clock.vtable) {
                    None => {
                        &&& after == found.at(Phase::Pause(scout, RESCAN_DELAY_TICKS))
                        &&& asked == logged(seq![Note::ContainerLostClock])
                    },
                    Some(instance) => {
                        &&& after == (Splitter {
                            // Remembered before it is handed over, so the next
                            // game does not bind to this one's freed
                            // initializer.
                            previous_run_start: match scout.run_start {
                                Some(start) => Some(start.instance),
                                None => self.previous_run_start,
                            },
                            probed: true,
                            phase: Phase::Watching(
                                scout.session,
                                watching(
                                    clock,
                                    registry,
                                    instance,
                                    scout.session.day_number,
                                    scout.session.event_bus_vtable,
                                    scout.scene,
                                    scout.run_start,
                                ),
                            ),
                            ..found
                        })
                        &&& exists|rest: Seq<Action>|
                            {
                                &&& #[trigger] self.probing(module, rest)
                                &&& asked == logged(
                                    seq![Note::ServiceAt { name: clock.name, address: instance }],
                                ) + rest
                            }
                    },
                }
            },
        }
    }

    fn judge(&mut self, module: &Module, scout: Scout, search: Search, out: &mut Vec<Action>)
        requires
            old(self).at(Phase::Begin).wf(),
        ensures
            final(self).wf(),
            old(out)@.is_prefix_of(final(out)@),
            old(self).judged(
                *module,
                scout,
                search,
                *final(self),
                final(out)@.skip(old(out)@.len() as int),
            ),
    {
        let ghost from = old(out)@.len() as int;
        let registry = match search.registry {
            None => {
                say(out, Note::NoContainer { conclusive: search.conclusive });
                if search.conclusive && self.previous_registry.is_some() {
                    self.empty_scans = self.empty_scans + 1;
                    if self.empty_scans >= GIVE_UP_SKIPPING_AFTER {
                        self.empty_scans = 0;
                        self.previous_registry = None;
                        say(out, Note::NoLongerSkipping);
                    }
                }
                assert(out@.skip(from) =~= logged(
                    old(self).came_up_empty(scout, search.conclusive).1,
                ));
                self.phase = Phase::Pause(scout, RESCAN_DELAY_TICKS);
                return ;
            },
            Some(registry) => registry,
        };
        self.empty_scans = 0;
        self.previous_registry = Some(registry.address());
        let clock: Locatable = scout.session.clock;
        let instance: u64 = match registry.lookup(clock.vtable()) {
            Some(instance) => instance,
            None => {
                say(out, Note::ContainerLostClock);
                assert(out@.skip(from) =~= logged(seq![Note::ContainerLostClock]));
                self.phase = Phase::Pause(scout, RESCAN_DELAY_TICKS);
                return ;
            },
        };
        let ghost at = Note::ServiceAt { name: clock.name, address: instance };
        say(out, Note::ServiceAt { name: clock.name(), address: instance });
        let ghost said = out@;
        if !self.probed {
            let report = probe::run(module);
            let ghost lines = report.lines@;
            let resolved = report.resolved;
            say_lines(out, report.lines);
            if !resolved {
                out.push(Action::Warn(Warning::VersionDoubtful));
            }
            self.probed = true;
            assert(out@.skip(said.len() as int) =~= lined(lines) + if resolved {
                Seq::empty()
            } else {
                seq![Action::Warn(Warning::VersionDoubtful)]
            });
        }
        proof {
            let rest = out@.skip(said.len() as int);
            if old(self).probed {
                assert(rest =~= Seq::<Action>::empty());
            }
            assert(old(self).probing(*module, rest));
            assert(said =~= old(out)@ + logged(seq![at]));
            assert(out@ =~= said + rest);
            assert(out@.skip(from) =~= logged(seq![at]) + rest);
        }
        if let Some(start) = &scout.run_start {
            self.previous_run_start = Some(start.instance);
        }
        let watch = Watch::new(
            clock,
            registry,
            instance,
            scout.session.day_number,
            scout.session.event_bus_vtable,
            scout.scene,
            scout.run_start,
        );
        self.phase = Phase::Watching(scout.session, watch);
    }

    /// What a step of watching the game leads to.
    pub open spec fn watched<M: Memory>(
        self,
        sight: Sight<M>,
        timer: TimerState,
        session: Session,
        watch: Watch,
        after: Splitter,
        asked: Seq<Action>,
    ) -> bool {
        exists|next: Watch, left: bool, said: Seq<Action>|
            {
                &&& #[trigger] watch.stepped(
                    sight,
                    timer,
                    self.table,
                    next,
                    after.table,
                    left,
                    said,
                )
                &&& after == (Splitter { phase: after.phase, table: after.table, ..self })
                &&& if !left {
                    after.phase == Phase::Watching(session, next) && asked == said
                } else if next.scene.class.validator.admits(sight.memory, next.scene.instance) {
                    &&& after.phase == Phase::Load(
                        Scout { session, scene: next.scene, run_start: None },
                    )
                    &&& asked == said.push(Action::Log(Note::SceneLoading))
                } else {
                    &&& after.phase == Phase::SeekLoader(session, true)
                    &&& asked == said.push(Action::Log(Note::SceneLoaderGone))
                }
            }
    }

    fn watch<M: Memory>(
        &mut self,
        sight: &Sight<M>,
        timer: TimerState,
        session: Session,
        watch: Watch,
        out: &mut Vec<Action>,
    )
        requires
            old(self).at(Phase::Begin).wf(),
            watch.wf(),
        ensures
            final(self).wf(),
            old(out)@.is_prefix_of(final(out)@),
            old(self).watched(
                *sight,
                timer,
                session,
                watch,
                *final(self),
                final(out)@.skip(old(out)@.len() as int),
            ),
    {
        let mut watch = watch;
        let ghost before = watch;
        let left = watch.step(sight, timer, &mut self.table, out);
        let ghost said = out@.skip(old(out)@.len() as int);
        assert(before.stepped(*sight, timer, old(self).table, watch, self.table, left, said));
        if !left {
            self.phase = Phase::Watching(session, watch);
            return ;
        }
        let scene: SceneLoad = watch.scene;
        if scene.still_valid(sight.memory) {
            say(out, Note::SceneLoading);
            assert(out@.skip(old(out)@.len() as int) =~= said.push(
                Action::Log(Note::SceneLoading),
            ));
            self.phase = Phase::Load(Scout { session, scene, run_start: None });
        } else {
            say(out, Note::SceneLoaderGone);
            assert(out@.skip(old(out)@.len() as int) =~= said.push(
                Action::Log(Note::SceneLoaderGone),
            ));
            self.phase = Phase::SeekLoader(session, true);
        }
    }

    /// What a step in a phase after a load leads to, once the run start has been
    /// polled.
    pub open spec fn scouted<M: Memory>(
        self,
        sight: Sight<M>,
        scout: Scout,
        after: Splitter,
        asked: Seq<Action>,
    ) -> bool {
        match self.phase {
            Phase::EnsureTable(_) => self.at(Phase::Begin).ensured(sight, scout, after, asked),
            Phase::SweepForTable(_, scan) => self.at(Phase::Begin).swept_for_table(
                sight,
                scout,
                scan,
                after,
                asked,
            ),
            Phase::IdentifyTable(_, identify) => self.at(Phase::Begin).table_identified(
                sight,
                scout,
                identify,
                after,
                asked,
            ),
            Phase::Enter(_) => {
                &&& self.at(Phase::Begin).entered(*sight.module, scout, after)
                &&& asked == Seq::<Action>::empty()
            },
            Phase::Search(_, search) => self.at(Phase::Begin).searched(
                sight,
                scout,
                search,
                after,
                asked,
            ),
            Phase::IdentifyAfter(_, search, identify) => self.at(Phase::Begin).after_identified(
                sight,
                scout,
                search,
                identify,
                after,
                asked,
            ),
            Phase::Judge(_, search) => self.at(Phase::Begin).judged(
                *sight.module,
                scout,
                search,
                after,
                asked,
            ),
            _ => false,
        }
    }

    /// The run start that is polled before anything else in this phase, if the
    /// phase is one after a load.
    pub open spec fn scouting(self) -> Option<Scout> {
        match self.phase {
            Phase::EnsureTable(scout) => Some(scout),
            Phase::SweepForTable(scout, _) => Some(scout),
            Phase::IdentifyTable(scout, _) => Some(scout),
            Phase::Enter(scout) => Some(scout),
            Phase::Search(scout, _) => Some(scout),
            Phase::IdentifyAfter(scout, _, _) => Some(scout),
            Phase::Judge(scout, _) => Some(scout),
            _ => None,
        }
    }

    /// What a step leads to.
    pub open spec fn stepped<M: Memory>(
        self,
        sight: Sight<M>,
        timer: TimerState,
        after: Splitter,
        asked: Seq<Action>,
    ) -> bool {
        let here = self.at(Phase::Begin);
        match self.scouting() {
            Some(scout) => {
                let (polled, said) = scout.polled(sight.memory, sight.settings, timer);
                exists|rest: Seq<Action>|
                    {
                        &&& #[trigger] self.scouted(sight, polled, after, rest)
                        &&& asked == said + rest
                    }
            },
            None => match self.phase {
                Phase::SeekLoader(session, again) => here.sought_loader(
                    sight.ranges@,
                    *sight.module,
                    session,
                    again,
                    after,
                    asked,
                ),
                Phase::FindLoader(session, again, locate, offset) => here.found_loader(
                    sight,
                    session,
                    again,
                    locate,
                    offset,
                    after,
                    asked,
                ),
                Phase::PauseLoader(session, again, left) => {
                    &&& after == self.at(
                        if left > 1 {
                            Phase::PauseLoader(session, again, (left - 1) as u32)
                        } else {
                            Phase::SeekLoader(session, again)
                        },
                    )
                    &&& asked == Seq::<Action>::empty()
                },
                Phase::Load(scout) => here.loaded(sight, scout, after, asked),
                Phase::BindEarly(scout, locate, offset) => here.bound_early(
                    sight,
                    scout,
                    locate,
                    offset,
                    after,
                    asked,
                ),
                Phase::Loaded(scout) => here.started_after(sight, scout, after, asked),
                Phase::FindStart(scout, locate, offset) => here.bound_late(
                    sight,
                    scout,
                    locate,
                    offset,
                    after,
                    asked,
                ),
                Phase::Pause(scout, left) => {
                    &&& after == self.at(
                        if left > 1 {
                            Phase::Pause(scout, (left - 1) as u32)
                        } else {
                            Phase::Load(scout.unbound())
                        },
                    )
                    &&& asked == Seq::<Action>::empty()
                },
                Phase::Watching(session, watch) => here.watched(
                    sight,
                    timer,
                    session,
                    watch,
                    after,
                    asked,
                ),
                _ => (after, asked) == self.waited(*sight.module),
            },
        }
    }

    /// One step of the splitter, in a process that is attached: as much as is
    /// done before something has to be looked at or asked for again. A tick is
    /// as many of them as [`runs_on`] says.
    #[verifier::spinoff_prover]
    #[verifier::rlimit(60)]
    pub fn step<M: Memory>(
        &mut self,
        sight: &Sight<M>,
        timer: TimerState,
        out: &mut Vec<Action>,
    )
        requires
            old(self).wf(),
        ensures
            final(self).wf(),
            old(out)@.is_prefix_of(final(out)@),
            old(self).stepped(
                *sight,
                timer,
                *final(self),
                final(out)@.skip(old(out)@.len() as int),
            ),
    {
        let mut phase = Phase::Begin;
        core::mem::swap(&mut phase, &mut self.phase);
        let ghost here = *self;
        assert(here == old(self).at(Phase::Begin));
        let ghost from = old(out)@.len() as int;
        assert(out@.skip(from) =~= Seq::<Action>::empty());
        match phase {
            Phase::SeekLoader(session, again) => {
                self.seek_loader(sight.ranges, sight.module, session, again, out);
            },
            Phase::FindLoader(session, again, locate, offset) => {
                self.find_loader(sight, session, again, locate, offset, out);
            },
            Phase::PauseLoader(session, again, left) => {
                self.phase = if left > 1 {
                    Phase::PauseLoader(session, again, left - 1)
                } else {
                    Phase::SeekLoader(session, again)
                };
            },
            Phase::Load(scout) => {
                self.load(sight, scout, out);
            },
            Phase::BindEarly(scout, locate, offset) => {
                self.bind_early(sight, scout, locate, offset, out);
            },
            Phase::Loaded(scout) => {
                self.start_after(sight, scout, out);
            },
            Phase::FindStart(scout, locate, offset) => {
                self.bind_late(sight, scout, locate, offset, out);
            },
            Phase::Pause(scout, left) => {
                self.phase = if left > 1 {
                    Phase::Pause(scout, left - 1)
                } else {
                    Phase::Load(
                        Scout { session: scout.session, scene: scout.scene, run_start: None },
                    )
                };
            },
            Phase::Watching(session, watch) => {
                self.watch(sight, timer, session, watch, out);
            },
            Phase::EnsureTable(mut scout) => {
                scout.poll(sight.memory, &sight.settings, timer, out);
                let ghost mid = out@;
                self.ensure_table(sight, scout, out);
                proof {
                    old(self).step_split(*sight, timer, *self, old(out)@, mid, out@);
                }
            },
            Phase::SweepForTable(mut scout, scan) => {
                scout.poll(sight.memory, &sight.settings, timer, out);
                let ghost mid = out@;
                self.sweep_for_table(sight, scout, scan, out);
                proof {
                    old(self).step_split(*sight, timer, *self, old(out)@, mid, out@);
                }
            },
            Phase::IdentifyTable(mut scout, identify) => {
                scout.poll(sight.memory, &sight.settings, timer, out);
                let ghost mid = out@;
                self.identify_table(sight, scout, identify, out);
                proof {
                    old(self).step_split(*sight, timer, *self, old(out)@, mid, out@);
                }
            },
            Phase::Enter(mut scout) => {
                scout.poll(sight.memory, &sight.settings, timer, out);
                let ghost mid = out@;
                self.enter(sight.module, scout);
                proof {
                    assert(mid.skip(mid.len() as int) =~= Seq::<Action>::empty());
                    old(self).step_split(*sight, timer, *self, old(out)@, mid, out@);
                }
            },
            Phase::Search(mut scout, search) => {
                scout.poll(sight.memory, &sight.settings, timer, out);
                let ghost mid = out@;
                self.search(sight, scout, search, out);
                proof {
                    old(self).step_split(*sight, timer, *self, old(out)@, mid, out@);
                }
            },
            Phase::IdentifyAfter(mut scout, search, identify) => {
                scout.poll(sight.memory, &sight.settings, timer, out);
                let ghost mid = out@;
                self.identify_after(sight, scout, search, identify, out);
                proof {
                    old(self).step_split(*sight, timer, *self, old(out)@, mid, out@);
                }
            },
            Phase::Judge(mut scout, search) => {
                scout.poll(sight.memory, &sight.settings, timer, out);
                let ghost mid = out@;
                self.judge(sight.module, scout, search, out);
                proof {
                    old(self).step_split(*sight, timer, *self, old(out)@, mid, out@);
                }
            },
            other => {
                self.phase = other;
                self.wait(sight.module, out);
                assert(out@.skip(from) =~= old(self).waited(*sight.module).1);
            },
        }
    }

    proof fn step_split<M: Memory>(
        self,
        sight: Sight<M>,
        timer: TimerState,
        after: Splitter,
        before: Seq<Action>,
        mid: Seq<Action>,
        out: Seq<Action>,
    )
        requires
            self.scouting() is Some,
            mid == before + self.scouting()->0.polled(sight.memory, sight.settings, timer).1,
            mid.is_prefix_of(out),
            self.scouted(
                sight,
                self.scouting()->0.polled(sight.memory, sight.settings, timer).0,
                after,
                out.skip(mid.len() as int),
            ),
        ensures
            before.is_prefix_of(out),
            self.stepped(sight, timer, after, out.skip(before.len() as int)),
    {
        let said = self.scouting()->0.polled(sight.memory, sight.settings, timer).1;
        let rest = out.skip(mid.len() as int);
        assert(out =~= mid + rest);
        assert(out.take(before.len() as int) =~= before);
        assert(out.skip(before.len() as int) =~= said + rest);
    }
}

/// A loader that was just found at `instance`.
pub open spec fn is_new_loader<M: Memory>(
    memory: &M,
    module: Module,
    class: Locatable,
    offset: u32,
    instance: u64,
    scene: SceneLoad,
) -> bool {
    &&& scene.class == class
    &&& scene.instance == instance
    &&& scene.offset == offset
    &&& !scene.loading
    &&& !scene.observed
    &&& scene.loaded == scene.incoming(memory, module)
}

/// What is said of a loader that was just found; `again` where one was lost.
pub open spec fn loader_notes(scene: SceneLoad, again: bool) -> Seq<Note> {
    let watching = Note::WatchingScenes { instance: scene.instance, loaded: scene.loaded };
    if again {
        seq![watching, Note::SceneLoading]
    } else {
        seq![watching]
    }
}

} // verus!
