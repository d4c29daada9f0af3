//! The wonder: unlocking it with science, and the run end it leads to.
use vstd::prelude::*;

use crate::collections::{count_offset, set_at, set_count_offset, HashSet};
use crate::floats::{equal, floats_equal, positive_sum, sum_is_positive};
use crate::memory::{
    field_pointer, i32_at, offset_by, plus, read_i32, read_pointer, read_u32, read_u8, u32_at,
    u8_at, Memory,
};
use crate::metadata::Module;
use crate::note::Note;
use crate::service::{field_offset, service, static_in, Locatable};
use crate::singletons::{instance_of, Registry};

verus! {

/// Whether the set at `set` holds a wonder's template name.
///
/// Both factions are covered: the Folktails' wonder is the Earth Recultivator,
/// and the Iron Teeth's the Earth Repopulator.
pub open spec fn holds_a_wonder<M: Memory>(memory: &M, module: Module, set: u64) -> bool {
    match set_at(memory, module, set) {
        Some(set) => set.contains(memory, "EarthRecultivator.Folktails"@) || set.contains(
            memory,
            "EarthRepopulator.IronTeeth"@,
        ),
        None => false,
    }
}

/// The unlock split: the player spending science on the wonder.
///
/// Timberborn has no research that runs over time. Science is produced by
/// buildings and banked, and a building is unlocked by clicking it in the
/// science tree, which succeeds instantly if enough is banked. So this is an
/// event, not a progress bar, and it is the click that the split fires on.
///
/// `BuildingUnlockingService._unlockedBuildings` is a `HashSet<string>` of
/// template names, so this is a membership test rather than an object walk.
#[derive(Clone, Copy)]
pub struct WonderUnlock {
    pub class: Locatable,
    pub instance: u64,
    pub set: u64,
    pub count_offset: u32,
    pub last_count: Option<i32>,
    /// Whether the wonder was already unlocked when we arrived. A loaded save
    /// may have it unlocked already, and that must not read as a fresh unlock.
    pub unlocked_on_arrival: bool,
    pub fired: bool,
}

/// The watcher of the unlocked buildings, once everything on the way to them
/// resolves.
pub open spec fn unlock_in<M: Memory>(
    memory: &M,
    module: Module,
    event_bus_vtable: u64,
    entries: Seq<(u64, u64)>,
) -> Option<WonderUnlock> {
    match (
        service(module, "Timberborn.ScienceSystem", "BuildingUnlockingService", event_bus_vtable),
        module.offset(
            "Timberborn.ScienceSystem"@,
            "BuildingUnlockingService"@,
            "_unlockedBuildings"@,
        ),
    ) {
        (Some(class), Some(field)) => match instance_of(entries, class.vtable) {
            Some(instance) => match field_pointer(memory, instance, field) {
                Some(set) => match set_count_offset(memory, module, set) {
                    Some(count_offset) => Some(
                        WonderUnlock {
                            class,
                            instance,
                            set,
                            count_offset,
                            last_count: None,
                            unlocked_on_arrival: holds_a_wonder(memory, module, set),
                            fired: false,
                        },
                    ),
                    None => None,
                },
                None => None,
            },
            None => None,
        },
        _ => None,
    }
}

impl WonderUnlock {
    /// What a tick leads to: the watcher, and whether the wonder was unlocked.
    pub open spec fn polled<M: Memory>(self, memory: &M, module: Module) -> (WonderUnlock, bool) {
        let count = i32_at(memory, plus(self.set, self.count_offset as u64));
        if self.fired || self.unlocked_on_arrival || count is None || self.last_count == count {
            (self, false)
        } else {
            let unlocked = holds_a_wonder(memory, module, self.set);
            (WonderUnlock { last_count: count, fired: unlocked, ..self }, unlocked)
        }
    }

    pub fn resolve<M: Memory>(
        memory: &M,
        module: &Module,
        event_bus_vtable: u64,
        registry: &Registry,
        log: &mut Vec<Note>,
    ) -> (unlock: Option<Self>)
        ensures
            unlock == unlock_in(memory, *module, event_bus_vtable, registry.entries@),
            final(log)@ == old(log)@ + (match unlock {
                Some(u) => seq![
                    Note::WatchingUnlocks { set: u.set, unlocked: u.unlocked_on_arrival },
                ],
                None => Seq::empty(),
            }),
    {
        assert(log@ =~= old(log)@ + Seq::<Note>::empty());
        let class = match Locatable::new(
            module,
            "Timberborn.ScienceSystem",
            "BuildingUnlockingService",
            event_bus_vtable,
        ) {
            Some(class) => class,
            None => {
                return None;
            },
        };
        let field: u32 = match field_offset(
            module,
            "Timberborn.ScienceSystem",
            "BuildingUnlockingService",
            "_unlockedBuildings",
        ) {
            Some(field) => field,
            None => {
                return None;
            },
        };
        let instance: u64 = match registry.lookup(class.vtable()) {
            Some(instance) => instance,
            None => {
                return None;
            },
        };
        let set: u64 = match read_pointer(memory, instance, field) {
            Some(set) => set,
            None => {
                return None;
            },
        };
        let count_offset: u32 = match count_offset(memory, module, set) {
            Some(offset) => offset,
            None => {
                return None;
            },
        };
        let unlocked_on_arrival = Self::wonder_unlocked(memory, module, set);
        let note = Note::WatchingUnlocks { set, unlocked: unlocked_on_arrival };
        log.push(note);
        assert(log@ =~= old(log)@ + seq![note]);
        Some(
            WonderUnlock {
                class,
                instance,
                set,
                count_offset,
                last_count: None,
                unlocked_on_arrival,
                fired: false,
            },
        )
    }

    /// Whether the wonder was ever seen in the unlocked set, however it got
    /// there. False at the end of a run means the template name is wrong.
    pub fn ever_matched(&self) -> (matched: bool)
        ensures
            matched == (self.fired || self.unlocked_on_arrival),
    {
        self.fired || self.unlocked_on_arrival
    }

    /// Bound part way through a run rather than on arriving at a loaded game, so
    /// whatever is unlocked now was unlocked during it.
    pub fn arrived_mid_run(&mut self, log: &mut Vec<Note>)
        ensures
            *final(self) == (WonderUnlock { unlocked_on_arrival: false, ..*old(self) }),
            final(log)@ == old(log)@ + (if old(self).unlocked_on_arrival {
                seq![Note::UnlockMidRun]
            } else {
                Seq::empty()
            }),
    {
        assert(log@ =~= old(log)@ + Seq::<Note>::empty());
        if self.unlocked_on_arrival {
            log.push(Note::UnlockMidRun);
            assert(log@ =~= old(log)@ + seq![Note::UnlockMidRun]);
        }
        self.unlocked_on_arrival = false;
    }

    pub fn still_valid<M: Memory>(&self, memory: &M) -> (valid: bool)
        ensures
            valid == self.class.validator.admits(memory, self.instance),
    {
        self.class.still_valid(memory, self.instance)
    }

    /// Whether the set at `set` holds either faction's wonder.
    pub fn wonder_unlocked<M: Memory>(memory: &M, module: &Module, set: u64) -> (unlocked: bool)
        ensures
            unlocked == holds_a_wonder(memory, *module, set),
    {
        match HashSet::read(memory, module, set) {
            Some(set) => set.contains_str(memory, "EarthRecultivator.Folktails")
                || set.contains_str(memory, "EarthRepopulator.IronTeeth"),
            None => false,
        }
    }

    /// One read per tick. The set is only walked when its count changes, which
    /// happens a handful of times a run rather than 120 times a second.
    pub fn poll<M: Memory>(&mut self, memory: &M, module: &Module) -> (unlocked: bool)
        ensures
            (*final(self), unlocked) == old(self).polled(memory, *module),
    {
        if self.fired || self.unlocked_on_arrival {
            return false;
        }
        let count: i32 = match read_i32(memory, offset_by(self.set, self.count_offset as u64)) {
            Some(count) => count,
            None => {
                return false;
            },
        };
        if self.last_count == Some(count) {
            return false;
        }
        self.last_count = Some(count);
        if Self::wonder_unlocked(memory, module, self.set) {
            self.fired = true;
            return true;
        }
        false
    }
}

/// The unlock fires at most once: having fired, or having found the wonder
/// unlocked on arrival, the watcher stays quiet in every memory.
pub proof fn the_unlock_fires_once<M: Memory>(
    unlock: WonderUnlock,
    memory: &M,
    later: &M,
    module: Module,
)
    ensures
        unlock.unlocked_on_arrival ==> !unlock.polled(memory, module).1,
        unlock.polled(memory, module).1 ==> !unlock.polled(memory, module).0.polled(
            later,
            module,
        ).1,
        unlock.fired ==> unlock.polled(memory, module) == (unlock, false),
{
}

/// The run-end condition, per the category rules: the "Congratulations!"
/// screen, not the wonder being activated.
///
/// Activating a wonder starts a countdown of `UnlockOffsetInHours` in-game
/// hours. Only when that finishes does the Congratulations screen appear. So
/// `CountdownFinished` is the signal, and activation is strictly earlier.
#[derive(Clone, Copy)]
pub struct WonderCompletion {
    pub class: Locatable,
    pub countdown_finished: u32,
    pub unlock_day: u32,
    pub instance: u64,
    /// `_unlockDay` as first seen, by its bits. It is set when the wonder is
    /// activated, so a change means activation -- no scanning required.
    pub unlock_day_on_arrival: Option<u32>,
    pub reported_activation: bool,
    /// Whether the real-time length of the countdown has been reported yet. The
    /// clock reads zero during load, so this is retried until it is sane.
    pub reported_length: bool,
    /// The value when we first saw it. A save that already completed its wonder
    /// loads with this true, and that must not read as the run ending.
    pub was_finished_on_arrival: bool,
}

/// The flag at `at` reads as set.
pub open spec fn flagged<M: Memory>(memory: &M, at: u64) -> bool {
    u8_at(memory, at) matches Some(byte) && byte != 0
}

/// The watcher of the countdown, once everything on the way to it resolves.
pub open spec fn completion_in<M: Memory>(
    memory: &M,
    module: Module,
    event_bus_vtable: u64,
    entries: Seq<(u64, u64)>,
) -> Option<WonderCompletion> {
    let image = "Timberborn.GameWonderCompletion";
    let name = "WonderCompletionCountdownStarter";
    match (
        service(module, image, name, event_bus_vtable),
        module.offset(image@, name@, "CountdownFinished"@),
        module.offset(image@, name@, "_unlockDay"@),
    ) {
        (Some(class), Some(countdown_finished), Some(unlock_day)) => match instance_of(
            entries,
            class.vtable,
        ) {
            Some(instance) => Some(
                WonderCompletion {
                    class,
                    countdown_finished,
                    unlock_day,
                    instance,
                    unlock_day_on_arrival: u32_at(memory, plus(instance, unlock_day as u64)),
                    reported_activation: false,
                    reported_length: false,
                    was_finished_on_arrival: flagged(
                        memory,
                        plus(instance, countdown_finished as u64),
                    ),
                },
            ),
            None => None,
        },
        _ => None,
    }
}

/// The countdown's length: its in-game hours, a day's real seconds, and the
/// in-game hours of a day's two parts.
pub open spec fn countdown<M: Memory>(
    memory: &M,
    module: Module,
    class: Locatable,
    clock: Locatable,
    clock_instance: u64,
) -> Option<Note> {
    let hours = match static_in(module, class.image@, class.name@, "UnlockOffsetInHours"@) {
        Some(at) => u32_at(memory, at),
        None => None,
    };
    match (
        hours,
        clock_value(memory, module, clock, clock_instance, "DayLengthInSeconds"@),
        clock_value(memory, module, clock, clock_instance, "DaytimeLengthInHours"@),
        clock_value(memory, module, clock, clock_instance, "NighttimeLengthInHours"@),
    ) {
        (Some(hours), Some(day_seconds), Some(daytime), Some(nighttime)) => if positive_sum(
            daytime,
            nighttime,
        ) {
            Some(Note::Countdown { hours, day_seconds, daytime, nighttime })
        } else {
            None
        },
        _ => None,
    }
}

/// A number of the clock's, by its bits.
pub open spec fn clock_value<M: Memory>(
    memory: &M,
    module: Module,
    clock: Locatable,
    instance: u64,
    field: Seq<char>,
) -> Option<u32> {
    match module.offset(clock.image@, clock.name@, field) {
        Some(offset) => u32_at(memory, plus(instance, offset as u64)),
        None => None,
    }
}

fn read_clock<M: Memory>(
    memory: &M,
    module: &Module,
    clock: &Locatable,
    instance: u64,
    field: &str,
) -> (value: Option<u32>)
    ensures
        value == clock_value(memory, *module, *clock, instance, field@),
{
    match clock.field(module, field) {
        Some(offset) => read_u32(memory, offset_by(instance, offset as u64)),
        None => None,
    }
}

/// Works out what the gap between activation and the run end is made of.
///
/// The countdown is expressed in in-game hours, and `DayNightCycle` knows how
/// long a day is in both hours and real seconds, so the gap can be computed from
/// any save rather than waiting to observe a completion. `None` until the game
/// finishes loading: the clock reads zero before that.
pub fn report_countdown_length<M: Memory>(
    memory: &M,
    module: &Module,
    class: &Locatable,
    clock: &Locatable,
    clock_instance: u64,
) -> (note: Option<Note>)
    ensures
        note == countdown(memory, *module, *class, *clock, clock_instance),
{
    let hours: u32 = match class.static_field(module, "UnlockOffsetInHours") {
        Some(at) => match read_u32(memory, at) {
            Some(hours) => hours,
            None => {
                return None;
            },
        },
        None => {
            return None;
        },
    };
    let day_seconds = read_clock(memory, module, clock, clock_instance, "DayLengthInSeconds");
    let daytime = read_clock(memory, module, clock, clock_instance, "DaytimeLengthInHours");
    let nighttime = read_clock(memory, module, clock, clock_instance, "NighttimeLengthInHours");
    match (day_seconds, daytime, nighttime) {
        (Some(day_seconds), Some(daytime), Some(nighttime)) => if sum_is_positive(
            daytime,
            nighttime,
        ) {
            Some(Note::Countdown { hours, day_seconds, daytime, nighttime })
        } else {
            None
        },
        _ => None,
    }
}

impl WonderCompletion {
    /// Whether the day the wonder unlocks differs from what it was on arrival.
    pub open spec fn activated(self, day: u32) -> bool {
        !(self.unlock_day_on_arrival matches Some(was) && equal(day, was))
    }

    /// What looking for the activation leads to.
    pub open spec fn told_of_activation<M: Memory>(self, memory: &M) -> (
        WonderCompletion,
        Seq<Note>,
    ) {
        match u32_at(memory, plus(self.instance, self.unlock_day as u64)) {
            Some(day) => if !self.reported_activation && self.activated(day) {
                (
                    WonderCompletion { reported_activation: true, ..self },
                    seq![Note::WonderActivated { due: day }],
                )
            } else {
                (self, Seq::empty())
            },
            None => (self, Seq::empty()),
        }
    }

    /// What working out the length leads to.
    pub open spec fn told_of_length<M: Memory>(
        self,
        memory: &M,
        module: Module,
        clock: Locatable,
        clock_instance: u64,
    ) -> (WonderCompletion, Seq<Note>) {
        match countdown(memory, module, self.class, clock, clock_instance) {
            Some(note) => if !self.reported_length {
                (WonderCompletion { reported_length: true, ..self }, seq![note])
            } else {
                (self, Seq::empty())
            },
            None => (self, Seq::empty()),
        }
    }

    /// Whether the run has ended: the countdown is finished, and was not when we
    /// arrived.
    pub open spec fn ended<M: Memory>(self, memory: &M) -> bool {
        !self.was_finished_on_arrival && flagged(
            memory,
            plus(self.instance, self.countdown_finished as u64),
        )
    }

    pub fn resolve<M: Memory>(
        memory: &M,
        module: &Module,
        event_bus_vtable: u64,
        registry: &Registry,
        log: &mut Vec<Note>,
    ) -> (completion: Option<Self>)
        ensures
            completion == completion_in(memory, *module, event_bus_vtable, registry.entries@),
            final(log)@ == old(log)@ + (match completion {
                Some(c) => seq![
                    Note::WatchingCompletion {
                        instance: c.instance,
                        already: c.was_finished_on_arrival,
                    },
                ],
                None => Seq::empty(),
            }),
    {
        assert(log@ =~= old(log)@ + Seq::<Note>::empty());
        let class = match Locatable::new(
            module,
            "Timberborn.GameWonderCompletion",
            "WonderCompletionCountdownStarter",
            event_bus_vtable,
        ) {
            Some(class) => class,
            None => {
                return None;
            },
        };
        let countdown_finished: u32 = match class.field(module, "CountdownFinished") {
            Some(offset) => offset,
            None => {
                return None;
            },
        };
        let unlock_day: u32 = match class.field(module, "_unlockDay") {
            Some(offset) => offset,
            None => {
                return None;
            },
        };
        let instance: u64 = match registry.lookup(class.vtable()) {
            Some(instance) => instance,
            None => {
                return None;
            },
        };
        let already = Self::reads_finished(memory, instance, countdown_finished);
        let note = Note::WatchingCompletion { instance, already };
        log.push(note);
        assert(log@ =~= old(log)@ + seq![note]);
        let unlock_day_on_arrival = read_u32(memory, offset_by(instance, unlock_day as u64));
        Some(
            WonderCompletion {
                class,
                countdown_finished,
                unlock_day,
                instance,
                unlock_day_on_arrival,
                reported_activation: false,
                reported_length: false,
                was_finished_on_arrival: already,
            },
        )
    }

    fn reads_finished<M: Memory>(memory: &M, instance: u64, offset: u32) -> (finished: bool)
        ensures
            finished == flagged(memory, plus(instance, offset as u64)),
    {
        match read_u8(memory, offset_by(instance, offset as u64)) {
            Some(byte) => byte != 0,
            None => false,
        }
    }

    /// Bound part way through a run. A completion that reads as already done
    /// belongs to the game before this one, so do not let it suppress the end.
    pub fn arrived_mid_run(&mut self, log: &mut Vec<Note>)
        ensures
            *final(self) == (WonderCompletion { was_finished_on_arrival: false, ..*old(self) }),
            final(log)@ == old(log)@ + (if old(self).was_finished_on_arrival {
                seq![Note::CompletionMidRun]
            } else {
                Seq::empty()
            }),
    {
        assert(log@ =~= old(log)@ + Seq::<Note>::empty());
        if self.was_finished_on_arrival {
            log.push(Note::CompletionMidRun);
            assert(log@ =~= old(log)@ + seq![Note::CompletionMidRun]);
        }
        self.was_finished_on_arrival = false;
    }

    pub fn still_valid<M: Memory>(&self, memory: &M) -> (valid: bool)
        ensures
            valid == self.class.validator.admits(memory, self.instance),
    {
        self.class.still_valid(memory, self.instance)
    }

    /// Reports how far activation precedes the run end, once the clock has
    /// values to compute it from.
    pub fn report_length<M: Memory>(
        &mut self,
        memory: &M,
        module: &Module,
        clock: &Locatable,
        clock_instance: u64,
        log: &mut Vec<Note>,
    )
        ensures
            ({
                let (after, said) = old(self).told_of_length(
                    memory,
                    *module,
                    *clock,
                    clock_instance,
                );
                *final(self) == after && final(log)@ == old(log)@ + said
            }),
    {
        assert(log@ =~= old(log)@ + Seq::<Note>::empty());
        if self.reported_length {
            return ;
        }
        if let Some(note) = report_countdown_length(
            memory,
            module,
            &self.class,
            clock,
            clock_instance,
        ) {
            log.push(note);
            assert(log@ =~= old(log)@ + seq![note]);
            self.reported_length = true;
        }
    }

    /// True only on a transition we actually observed.
    pub fn finished<M: Memory>(&self, memory: &M) -> (finished: bool)
        ensures
            finished == self.ended(memory),
    {
        !self.was_finished_on_arrival && Self::reads_finished(
            memory,
            self.instance,
            self.countdown_finished,
        )
    }

    /// The day the wonder unlocks, by its bits.
    pub fn unlock_day<M: Memory>(&self, memory: &M) -> (day: Option<u32>)
        ensures
            day == u32_at(memory, plus(self.instance, self.unlock_day as u64)),
    {
        read_u32(memory, offset_by(self.instance, self.unlock_day as u64))
    }

    /// Notes when the wonder is activated, which is not the run end but is worth
    /// seeing in the log: the run ends one countdown later.
    pub fn report_activation<M: Memory>(&mut self, memory: &M, log: &mut Vec<Note>)
        ensures
            ({
                let (after, said) = old(self).told_of_activation(memory);
                *final(self) == after && final(log)@ == old(log)@ + said
            }),
    {
        assert(log@ =~= old(log)@ + Seq::<Note>::empty());
        if self.reported_activation {
            return ;
        }
        let day: u32 = match self.unlock_day(memory) {
            Some(day) => day,
            None => {
                return ;
            },
        };
        let unchanged = match self.unlock_day_on_arrival {
            Some(was) => floats_equal(day, was),
            None => false,
        };
        if !unchanged {
            let note = Note::WonderActivated { due: day };
            log.push(note);
            assert(log@ =~= old(log)@ + seq![note]);
            self.reported_activation = true;
        }
    }
}

/// Activating the wonder is not the run end: whatever the unlock day reads, the
/// run ends by the countdown alone, and not where that was over on arrival.
pub proof fn activation_does_not_end_the_run<M: Memory>(
    completion: WonderCompletion,
    memory: &M,
)
    ensures
        completion.told_of_activation(memory).0.ended(memory) == completion.ended(memory),
        completion.was_finished_on_arrival ==> !completion.ended(memory),
{
}

} // verus!
