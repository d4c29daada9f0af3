//! The run-start condition, per the category rules: "starts when the overlay
//! appears after choosing your settlement name".
//!
//! `GameInitializer` steps through an `InitializationState` enum, whose members
//! name the sequence exactly:
//!
//! ```text
//! 0 Waiting  1 SpawnBeavers  2 PostSpawnBeavers  3 UnpauseGame  4 ShowUI  5 Finished
//! ```
//!
//! It sits on `Waiting` while the settlement-name dialog is up and steps
//! through the rest within a few ticks of confirming it. `ShowUI` is the step
//! that puts the overlay on screen, so that is the split.
use vstd::prelude::*;

use crate::locate::Accept;
use crate::memory::{i32_at, offset_by, plus, read_i32, Memory};
use crate::metadata::Module;
use crate::note::{Action, Note, Warning};
use crate::service::{
    field_offset, referenced_len, service, static_field, static_in, string_len, Locatable,
};
use crate::timer::TimerState;

verus! {

/// `InitializationState.Finished`.
pub const FINISHED: i32 = 5;

/// `InitializationState.ShowUI`.
pub const SHOW_UI: i32 = 4;

/// How many initializers a search looks at.
pub const MAX_INITIALIZERS: usize = 4;

/// The watcher of one game's run start.
#[derive(Clone, Copy)]
pub struct RunStart {
    /// Kept so the instance can be re-validated. Without this the watcher
    /// cannot tell that its object has been freed: the address still reads, and
    /// returns whatever now occupies the memory.
    pub class: Locatable,
    pub instance: u64,
    pub offset: u32,
    /// Static `WorldDataService.SourceFileName`: the save being loaded, and
    /// null on a new game. The state alone cannot tell the two apart -- loading
    /// a save walks the same sequence.
    pub source_file_name: Option<u64>,
    /// Whether a state before `ShowUI` has been seen. Attaching to a game
    /// already in progress must not count as a start.
    pub seen_before_ui: bool,
    /// What the scene load said, if one was watched.
    pub new_game: Option<bool>,
    /// Whether the load into this game was actually watched. Losing the race on
    /// a load we watched is a malfunction; arriving at a game that was already
    /// up is not.
    pub watched_load: bool,
    pub warned_late: bool,
    pub fired: bool,
    pub last: Option<i32>,
}

/// How the initializer is located, and where its state is.
pub open spec fn initializer_in(module: Module, event_bus_vtable: u64) -> Option<(Locatable, u32)> {
    match (
        service(module, "Timberborn.GameStartup", "GameInitializer", event_bus_vtable),
        module.offset("Timberborn.GameStartup"@, "GameInitializer"@, "_initializationState"@),
    ) {
        (Some(class), Some(offset)) => Some((class, offset)),
        _ => None,
    }
}

/// A watcher of the initializer at `instance` that has not looked yet.
pub open spec fn bound(
    module: Module,
    class: Locatable,
    offset: u32,
    instance: u64,
    new_game: Option<bool>,
    watched_load: bool,
) -> RunStart {
    RunStart {
        class,
        instance,
        offset,
        source_file_name: static_in(
            module,
            "Timberborn.ErrorReporting"@,
            "WorldDataService"@,
            "SourceFileName"@,
        ),
        seen_before_ui: false,
        new_game,
        watched_load,
        warned_late: false,
        fired: false,
        last: None,
    }
}

/// What is said when a watcher is bound.
pub open spec fn binding(start: RunStart) -> Seq<Action> {
    if start.source_file_name is None {
        seq![
            Action::Warn(Warning::CannotTellNewGame),
            Action::Log(Note::WatchingRunStart { instance: start.instance }),
        ]
    } else {
        seq![Action::Log(Note::WatchingRunStart { instance: start.instance })]
    }
}

/// Which initializer will do.
pub open spec fn accepting(offset: u32, skip: Option<u64>, require_pre_ui: bool) -> Accept {
    Accept {
        skip,
        below: if require_pre_ui {
            Some((offset, SHOW_UI))
        } else {
            None
        },
    }
}

impl RunStart {
    /// The state of the initializer, where it reads.
    pub open spec fn state<M: Memory>(self, memory: &M) -> Option<i32> {
        i32_at(memory, plus(self.instance, self.offset as u64))
    }

    /// The length of the save's name, where one is set.
    pub open spec fn save_name<M: Memory>(self, memory: &M) -> Option<i32> {
        match self.source_file_name {
            Some(reference) => match referenced_len(memory, reference) {
                Some(len) => if len > 0 {
                    Some(len)
                } else {
                    None
                },
                None => None,
            },
            None => None,
        }
    }

    /// What a state, once it is past the overlay and not yet acted on, leads to.
    pub open spec fn judged(self, save_name: Option<i32>, timer: TimerState) -> (
        RunStart,
        bool,
        Seq<Action>,
    ) {
        if self.new_game == Some(false) {
            // A save walks the same states, and is no run.
            (
                RunStart { warned_late: true, ..self },
                false,
                if self.warned_late {
                    Seq::empty()
                } else {
                    seq![Action::Log(Note::OverlayInSave)]
                },
            )
        } else if !self.seen_before_ui {
            // How late it is cannot be known, so the timer is not started.
            (
                RunStart { warned_late: true, ..self },
                false,
                if self.warned_late {
                    Seq::empty()
                } else if timer is NotRunning {
                    seq![
                        Action::Log(Note::OverlayBefore { watched_load: self.watched_load }),
                        Action::Warn(
                            if self.watched_load {
                                Warning::RunStartMissed
                            } else {
                                Warning::GameInProgress
                            },
                        ),
                    ]
                } else {
                    seq![Action::Log(Note::OverlayBefore { watched_load: self.watched_load })]
                },
            )
        } else {
            let fired = RunStart { fired: true, ..self };
            match save_name {
                Some(len) => if self.new_game == Some(true) {
                    (fired, true, Seq::empty())
                } else {
                    (fired, false, seq![Action::Log(Note::OverlayInNamedSave { len })])
                },
                None => (fired, true, Seq::empty()),
            }
        }
    }

    /// What a reading of the state leads to: the watcher, whether the run
    /// starts, and what is said.
    pub open spec fn polled(
        self,
        state: Option<i32>,
        save_name: Option<i32>,
        timer: TimerState,
    ) -> (RunStart, bool, Seq<Action>) {
        match state {
            None => (self, false, Seq::empty()),
            Some(state) => {
                let said = if self.last == Some(state) {
                    Seq::empty()
                } else {
                    seq![Action::Log(Note::InitializationState { state })]
                };
                let told = RunStart { last: Some(state), ..self };
                if state < SHOW_UI {
                    (RunStart { seen_before_ui: true, fired: false, ..told }, false, said)
                } else if self.fired {
                    (told, false, said)
                } else {
                    let (after, starts, more) = told.judged(save_name, timer);
                    (after, starts, said + more)
                }
            },
        }
    }

    /// Where to look for the initializer, once every name in it resolves.
    pub fn target(module: &Module, event_bus_vtable: u64) -> (target: Option<(Locatable, u32)>)
        ensures
            target == initializer_in(*module, event_bus_vtable),
    {
        let class = Locatable::new(
            module,
            "Timberborn.GameStartup",
            "GameInitializer",
            event_bus_vtable,
        );
        let offset = field_offset(
            module,
            "Timberborn.GameStartup",
            "GameInitializer",
            "_initializationState",
        );
        match (class, offset) {
            (Some(class), Some(offset)) => Some((class, offset)),
            _ => None,
        }
    }

    /// Which initializer will do: not the one of the game just left, whose freed
    /// memory reads as a plausible `Waiting`, and while the load is still
    /// running only one that has not reached the overlay yet.
    pub fn acceptable(offset: u32, skip: Option<u64>, require_pre_ui: bool) -> (accept: Accept)
        ensures
            accept == accepting(offset, skip, require_pre_ui),
    {
        Accept {
            skip,
            below: if require_pre_ui {
                Some((offset, SHOW_UI))
            } else {
                None
            },
        }
    }

    /// Watches the initializer found at `instance`.
    ///
    /// `new_game` is what the scene load said, when one was watched:
    /// `Some(true)` for a new game, `Some(false)` for a save, `None` when no
    /// load has been seen and the save-name static has to answer instead.
    pub fn bind(
        module: &Module,
        class: Locatable,
        offset: u32,
        instance: u64,
        new_game: Option<bool>,
        watched_load: bool,
        out: &mut Vec<Action>,
    ) -> (start: Self)
        ensures
            start == bound(*module, class, offset, instance, new_game, watched_load),
            final(out)@ == old(out)@ + binding(start),
    {
        // Static, so no instance and no validator are needed.
        let source_file_name = static_field(
            module,
            "Timberborn.ErrorReporting",
            "WorldDataService",
            "SourceFileName",
        );
        if source_file_name.is_none() {
            out.push(Action::Warn(Warning::CannotTellNewGame));
        }
        out.push(Action::Log(Note::WatchingRunStart { instance }));
        let start = RunStart {
            class,
            instance,
            offset,
            source_file_name,
            seen_before_ui: false,
            new_game,
            watched_load,
            warned_late: false,
            fired: false,
            last: None,
        };
        assert(out@ =~= old(out)@ + binding(start));
        start
    }

    /// Whether the object being watched is still a `GameInitializer`.
    ///
    /// A freed one gets its memory reused, and the state field then reads as
    /// whatever the new occupant holds.
    pub fn still_valid<M: Memory>(&self, memory: &M) -> (valid: bool)
        ensures
            valid == self.class.validator.admits(memory, self.instance),
    {
        self.class.still_valid(memory, self.instance)
    }

    /// Corrects what this watcher was told about the game it is bound to.
    ///
    /// Binding happens during the load, when the scene loader can still be
    /// holding the previous load's parameters, so the answer given at bind time
    /// may be a load out of date. It is final once the load has finished.
    /// Ignored once the watcher has already decided, so a late correction cannot
    /// fire a start twice or retract one.
    pub fn expect_new_game(&mut self, new_game: bool)
        ensures
            *final(self) == (if old(self).fired || old(self).warned_late {
                *old(self)
            } else {
                RunStart { new_game: Some(new_game), ..*old(self) }
            }),
    {
        if !self.fired && !self.warned_late {
            self.new_game = Some(new_game);
        }
    }

    /// Whether the game has finished loading. Anything that samples saved state
    /// must wait for this.
    pub fn initialized(&self) -> (initialized: bool)
        ensures
            initialized == (self.last matches Some(state) && state >= FINISHED),
    {
        match self.last {
            Some(state) => state >= FINISHED,
            None => false,
        }
    }

    /// One read. Called every tick, because run start is as timing-critical as
    /// run end.
    ///
    /// The test is not "the state is ShowUI". That state can be over in less
    /// than a tick, so waiting to see it discards starts that were tracked
    /// perfectly. What matters is that a pre-overlay state was seen on *this*
    /// instance and the state is now past it: the crossing then happened since
    /// the last poll, which is one tick ago at worst.
    pub fn poll<M: Memory>(
        &mut self,
        memory: &M,
        timer: TimerState,
        out: &mut Vec<Action>,
    ) -> (starts: bool)
        ensures
            ({
                let (after, started, said) = old(self).polled(
                    old(self).state(memory),
                    old(self).save_name(memory),
                    timer,
                );
                &&& *final(self) == after
                &&& starts == started
                &&& final(out)@ == old(out)@ + said
            }),
    {
        let state: i32 = match read_i32(memory, offset_by(self.instance, self.offset as u64)) {
            Some(state) => state,
            None => {
                assert(out@ =~= old(out)@ + Seq::<Action>::empty());
                return false;
            },
        };
        let ghost begun = out@;
        if self.last != Some(state) {
            out.push(Action::Log(Note::InitializationState { state }));
            self.last = Some(state);
        }
        let ghost said = if old(self).last == Some(state) {
            Seq::empty()
        } else {
            seq![Action::Log(Note::InitializationState { state })]
        };
        let ghost told = *self;
        assert(told == (RunStart { last: Some(state), ..*old(self) }));
        assert(out@ =~= begun + said);
        assert(said + Seq::<Action>::empty() =~= said);

        if state < SHOW_UI {
            self.seen_before_ui = true;
            // A fresh game start after a previous one, so allow firing again.
            self.fired = false;
            return false;
        }
        if self.fired {
            return false;
        }
        if self.new_game == Some(false) {
            if !self.warned_late {
                self.warned_late = true;
                out.push(Action::Log(Note::OverlayInSave));
                assert(out@ =~= begun + (said + seq![Action::Log(Note::OverlayInSave)]));
            }
            return false;
        }
        if !self.seen_before_ui {
            if !self.warned_late {
                self.warned_late = true;
                // Deliberately two different messages for what is, to the
                // runner, the same situation: start the timer yourself. They
                // differ so that a screenshot in a bug report says which of the
                // two happened.
                out.push(Action::Log(Note::OverlayBefore { watched_load: self.watched_load }));
                // A timer that is already running makes this moot: the start
                // was not missed, this watcher just arrived after it.
                if timer == TimerState::NotRunning {
                    let warning = if self.watched_load {
                        Warning::RunStartMissed
                    } else {
                        Warning::GameInProgress
                    };
                    out.push(Action::Warn(warning));
                }
                assert(out@ =~= begun + (said + told.judged(None, timer).2));
            }
            return false;
        }
        self.fired = true;
        if self.new_game == Some(true) {
            return true;
        }
        // No load was watched, so the save-name static has to say whether this
        // is a new game.
        match self.loaded_from_save(memory) {
            Some(len) => {
                out.push(Action::Log(Note::OverlayInNamedSave { len }));
                assert(out@ =~= begun + (said + seq![
                    Action::Log(Note::OverlayInNamedSave { len }),
                ]));
                false
            },
            None => true,
        }
    }

    /// `Some(length)` when a save file name is set, i.e. this is a load rather
    /// than a new game.
    pub fn loaded_from_save<M: Memory>(&self, memory: &M) -> (len: Option<i32>)
        ensures
            len == self.save_name(memory),
    {
        let reference: u64 = match self.source_file_name {
            Some(reference) => reference,
            None => {
                return None;
            },
        };
        match string_len(memory, reference) {
            Some(len) => if len > 0 {
                Some(len)
            } else {
                None
            },
            None => None,
        }
    }
}

/// What follows a state's number in the log.
pub open spec fn state_name(state: i32) -> Seq<char> {
    if state == 0 {
        " (Waiting)"@
    } else if state == 1 {
        " (SpawnBeavers)"@
    } else if state == 2 {
        " (PostSpawnBeavers)"@
    } else if state == 3 {
        " (UnpauseGame)"@
    } else if state == 4 {
        " (ShowUI)"@
    } else if state == 5 {
        " (Finished)"@
    } else {
        ""@
    }
}

/// What follows a state's number in the log.
pub fn name_of(state: i32) -> (name: &'static str)
    ensures
        name@ == state_name(state),
{
    match state {
        0 => " (Waiting)",
        1 => " (SpawnBeavers)",
        2 => " (PostSpawnBeavers)",
        3 => " (UnpauseGame)",
        4 => " (ShowUI)",
        5 => " (Finished)",
        _ => "",
    }
}

/// One look at the initializer: its state, the length of the save's name, and
/// the timer.
pub type Look = (Option<i32>, Option<i32>, TimerState);

/// The watcher after a series of looks, and how many of them started a run.
pub open spec fn watched(start: RunStart, looks: Seq<Look>) -> (RunStart, nat)
    decreases looks.len(),
{
    if looks.len() == 0 {
        (start, 0)
    } else {
        let (before, starts) = watched(start, looks.drop_last());
        let look = looks.last();
        let (after, started, _) = before.polled(look.0, look.1, look.2);
        (
            after,
            if started {
                starts + 1
            } else {
                starts
            },
        )
    }
}

/// No run starts on an overlay that was already up: a watcher that has only
/// ever seen the states after it, or none at all, never fires.
pub proof fn a_game_already_up_starts_nothing(start: RunStart, looks: Seq<Look>)
    requires
        !start.seen_before_ui,
        forall|i: int|
            0 <= i < looks.len() ==> ((#[trigger] looks[i]).0 matches Some(state) ==> state
                >= SHOW_UI),
    ensures
        watched(start, looks).1 == 0,
        !watched(start, looks).0.seen_before_ui,
    decreases looks.len(),
{
    if looks.len() > 0 {
        let rest = looks.drop_last();
        assert forall|i: int| 0 <= i < rest.len() implies ((#[trigger] rest[i]).0 matches Some(
            state,
        ) ==> state >= SHOW_UI) by {
            assert(rest[i] == looks[i]);
        }
        a_game_already_up_starts_nothing(start, rest);
        assert(looks[looks.len() - 1] == looks.last());
    }
}

/// A game loaded from a save never starts a run, whatever its states read.
pub proof fn a_save_starts_nothing(start: RunStart, looks: Seq<Look>)
    requires
        start.new_game == Some(false),
    ensures
        watched(start, looks).1 == 0,
        watched(start, looks).0.new_game == Some(false),
    decreases looks.len(),
{
    if looks.len() > 0 {
        a_save_starts_nothing(start, looks.drop_last());
    }
}

/// Crossing into the overlay starts a run once: however long a game is then
/// watched, nothing more starts until a state before the overlay is seen.
pub proof fn an_overlay_starts_one_run(start: RunStart, looks: Seq<Look>)
    requires
        forall|i: int|
            0 <= i < looks.len() ==> ((#[trigger] looks[i]).0 matches Some(state) ==> state
                >= SHOW_UI),
    ensures
        watched(start, looks).1 <= 1,
        start.fired ==> watched(start, looks).1 == 0,
        watched(start, looks).1 == 1 || start.fired ==> watched(start, looks).0.fired,
    decreases looks.len(),
{
    if looks.len() > 0 {
        let rest = looks.drop_last();
        assert forall|i: int| 0 <= i < rest.len() implies ((#[trigger] rest[i]).0 matches Some(
            state,
        ) ==> state >= SHOW_UI) by {
            assert(rest[i] == looks[i]);
        }
        an_overlay_starts_one_run(start, rest);
        assert(looks[looks.len() - 1] == looks.last());
    }
}

/// A new game watched from before its overlay starts a run on the first reading
/// past it, whichever of the later states that is: seeing `ShowUI` itself is not
/// needed.
pub proof fn a_watched_new_game_starts(
    start: RunStart,
    before: i32,
    past: i32,
    name: Option<i32>,
    timer: TimerState,
)
    requires
        start.new_game == Some(true),
        before < SHOW_UI <= past,
    ensures
        ({
            let waiting = start.polled(Some(before), name, timer);
            !waiting.1 && waiting.0.polled(Some(past), name, timer).1
        }),
{
}

} // verus!
