//! The game's own clock, read as the counters that make a fractional day.
//!
//! `DayNightCycle` counts whole days in `DayNumber` and the ticks elapsed
//! within the current one in `_ticksPassedToday`, so the two together are the
//! game's position in time to a resolution of one tick:
//!
//! ```text
//! day = DayNumber + _ticksPassedToday / ticks_per_day
//! ticks_per_day = (DaytimeLengthInHours + NighttimeLengthInHours)
//!                 / FixedDeltaTimeInHours
//! ```
//!
//! The lengths are floats. They are held here as their bits, and the division
//! is left to the host; what is decided here is which of them are usable, and
//! what is done with the day that comes out.
//!
//! The three length constants read as zero until the game has finished loading,
//! so they are read until they are usable and then kept. The two counters are
//! read every tick.
//!
//! # Between ticks
//!
//! Those counters only move once a game tick, so a timer driven by them alone
//! updates under twice a second. `TickProgressService.Progress` -- how far
//! through the current tick the game is, 0 to 1 -- fills the gap, and it is
//! reached through the DI container like everything else.
use vstd::prelude::*;
use vstd::string::StringExecFns;

use crate::floats::{at_most_zero, sum_at_most_zero, sum_never_positive, sure_not_positive};
use crate::memory::{i32_at, offset_by, plus, read_i32, read_u32, u32_at, Memory};
use crate::metadata::Module;
use crate::service::{class_vtable, field_offset, Locatable};
use crate::singletons::{instance_of, Registry};
use crate::text::{hex_text, owned, push_hex};

verus! {

/// The in-game day a new game starts on, as the bits of a double: day 1 and 128
/// ticks of 768.
///
/// Used where there was no clock to sample yet, and to check the sampled
/// baseline.
pub const NEW_GAME_DAY: u64 = 0x3FF2_AAAA_AAAA_AAAB;

/// The fields that turn a day counter into a position within the day.
#[derive(Clone, Copy, PartialEq, Eq, Structural, Debug)]
pub struct SubDay {
    pub ticks_today: u32,
    pub hours_per_tick: u32,
    pub daytime: u32,
    pub nighttime: u32,
}

/// Where the clock's fields sit, resolved once per session.
///
/// `DayNumber` is required: without it the splitter cannot say what day it is.
/// The rest are optional so that a build missing them loses game time alone
/// rather than everything.
#[derive(Clone, Copy, PartialEq, Eq, Structural, Debug)]
pub struct ClockFields {
    pub day_number: u32,
    pub sub_day: Option<SubDay>,
}

/// The fields within the day, where all of them resolve.
pub open spec fn sub_day_of(module: Module, image: Seq<char>, name: Seq<char>) -> Option<SubDay> {
    match (
        module.offset(image, name, "_ticksPassedToday"@),
        module.offset(image, name, "FixedDeltaTimeInHours"@),
        module.offset(image, name, "DaytimeLengthInHours"@),
        module.offset(image, name, "NighttimeLengthInHours"@),
    ) {
        (Some(ticks_today), Some(hours_per_tick), Some(daytime), Some(nighttime)) => Some(
            SubDay { ticks_today, hours_per_tick, daytime, nighttime },
        ),
        _ => None,
    }
}

impl ClockFields {
    /// Resolves the offsets. `None` only when `DayNumber` is missing, which is a
    /// game version this splitter cannot read at all.
    pub fn resolve(module: &Module, clock: &Locatable) -> (fields: Option<Self>)
        ensures
            fields == match module.offset(clock.image@, clock.name@, "DayNumber"@) {
                Some(day_number) => Some(
                    ClockFields {
                        day_number,
                        sub_day: sub_day_of(*module, clock.image@, clock.name@),
                    },
                ),
                None => None,
            },
    {
        let sub_day = match (
            clock.field(module, "_ticksPassedToday"),
            clock.field(module, "FixedDeltaTimeInHours"),
            clock.field(module, "DaytimeLengthInHours"),
            clock.field(module, "NighttimeLengthInHours"),
        ) {
            (Some(ticks_today), Some(hours_per_tick), Some(daytime), Some(nighttime)) => Some(
                SubDay { ticks_today, hours_per_tick, daytime, nighttime },
            ),
            _ => None,
        };
        match clock.field(module, "DayNumber") {
            Some(day_number) => Some(ClockFields { day_number, sub_day }),
            None => None,
        }
    }

    /// Whether the sub-day fields resolved, and so whether a fractional day is
    /// available at all.
    pub fn has_sub_day(&self) -> (has_it: bool)
        ensures
            has_it == (self.sub_day is Some),
    {
        self.sub_day.is_some()
    }
}

/// `TickProgressService`, where the game says how far through the current tick
/// it is.
///
/// Optional throughout: without it game time still follows the clock, just in
/// whole-tick steps.
#[derive(Clone, Copy, PartialEq, Eq, Structural, Debug)]
pub struct TickProgress {
    pub instance: u64,
    pub offset: u32,
}

impl TickProgress {
    /// Looks the service up in the DI container. `None` if it is not there yet,
    /// or if the class has never been constructed; [`TickProgress::telling`] is
    /// what the host is told of one that was found.
    pub fn resolve(module: &Module, registry: &Registry) -> (progress: Option<Self>)
        ensures
            progress == match module.vtable("Timberborn.TimeSystem"@, "TickProgressService"@) {
                Some(vtable) => match (
                    instance_of(registry.entries@, vtable),
                    module.offset(
                        "Timberborn.TimeSystem"@,
                        "TickProgressService"@,
                        "Progress"@,
                    ),
                ) {
                    (Some(instance), Some(offset)) => Some(TickProgress { instance, offset }),
                    _ => None,
                },
                None => None,
            },
    {
        let vtable = match class_vtable(module, "Timberborn.TimeSystem", "TickProgressService") {
            Some(vtable) => vtable,
            None => {
                return None;
            },
        };
        let offset = field_offset(
            module,
            "Timberborn.TimeSystem",
            "TickProgressService",
            "Progress",
        );
        match (registry.lookup(vtable), offset) {
            (Some(instance), Some(offset)) => Some(TickProgress { instance, offset }),
            _ => None,
        }
    }

    /// What the host is told once the service is found.
    pub fn telling(&self) -> (telling: Telling)
        ensures
            telling == (Telling::MovesBetweenTicks { instance: self.instance }),
    {
        Telling::MovesBetweenTicks { instance: self.instance }
    }
}

/// The clock's length constants, as the bits of single-precision floats.
#[derive(Clone, Copy, PartialEq, Eq, Structural, Debug)]
pub struct Lengths {
    pub hours_per_tick: u32,
    pub daytime: u32,
    pub nighttime: u32,
}

impl Lengths {
    /// Whether a day has a length that ticks can be counted in: not before the
    /// game has loaded far enough for the constants to be non-zero.
    pub open spec fn are_usable(self) -> bool {
        !at_most_zero(self.hours_per_tick) && !sum_at_most_zero(self.daytime, self.nighttime)
    }
}

/// How far into the day the game is.
#[derive(Clone, Copy, PartialEq, Eq, Structural, Debug)]
pub struct Within {
    pub ticks: i32,
    /// How far through the current tick, as the bits of a single-precision
    /// float; zero where there is nothing to say so. Not clamped yet.
    pub progress: u32,
    pub lengths: Lengths,
}

/// One tick's look at the clock.
#[derive(Clone, Copy, PartialEq, Eq, Structural, Debug)]
pub struct Reading {
    /// The whole-day counter, which reads on every build.
    pub day_number: i32,
    /// The same moment within the day, or `None` on a build without the sub-day
    /// fields, or before the game has loaded far enough for the lengths to be
    /// usable.
    pub within: Option<Within>,
}

/// A clock bound to one game's `DayNightCycle`.
///
/// Built per scene, because the instance is: the offsets outlive a game and the
/// object does not.
pub struct Clock {
    pub fields: ClockFields,
    pub instance: u64,
    /// Where the sub-tick fraction comes from, when the container had it.
    pub progress: Option<TickProgress>,
    /// Read once they are usable, and then kept: they do not change within a
    /// game.
    pub lengths: Option<Lengths>,
}

/// The length constants as they read, where all can be read.
pub open spec fn lengths_at<M: Memory>(memory: &M, instance: u64, sub_day: SubDay) -> Option<
    Lengths,
> {
    match (
        u32_at(memory, plus(instance, sub_day.hours_per_tick as u64)),
        u32_at(memory, plus(instance, sub_day.daytime as u64)),
        u32_at(memory, plus(instance, sub_day.nighttime as u64)),
    ) {
        (Some(hours_per_tick), Some(daytime), Some(nighttime)) => Some(
            Lengths { hours_per_tick, daytime, nighttime },
        ),
        _ => None,
    }
}

/// The lengths that a clock goes by: those it kept, or those that read usable.
pub open spec fn lengths_of<M: Memory>(memory: &M, clock: Clock) -> Option<Lengths> {
    match clock.lengths {
        Some(lengths) => Some(lengths),
        None => match clock.fields.sub_day {
            Some(sub_day) => match lengths_at(memory, clock.instance, sub_day) {
                Some(lengths) => if lengths.are_usable() {
                    Some(lengths)
                } else {
                    None
                },
                None => None,
            },
            None => None,
        },
    }
}

/// How far through the tick the game says it is, as it reads; zero where it
/// cannot be read.
pub open spec fn progress_at<M: Memory>(memory: &M, progress: Option<TickProgress>) -> u32 {
    match progress {
        Some(progress) => match u32_at(memory, plus(progress.instance, progress.offset as u64)) {
            Some(bits) => bits,
            None => 0,
        },
        None => 0,
    }
}

/// Where the game is within the day.
pub open spec fn within_of<M: Memory>(memory: &M, clock: Clock) -> Option<Within> {
    match (lengths_of(memory, clock), clock.fields.sub_day) {
        (Some(lengths), Some(sub_day)) => match i32_at(
            memory,
            plus(clock.instance, sub_day.ticks_today as u64),
        ) {
            Some(ticks) => Some(
                Within { ticks, progress: progress_at(memory, clock.progress), lengths },
            ),
            None => None,
        },
        _ => None,
    }
}

impl Clock {
    pub fn new(fields: ClockFields, instance: u64, progress: Option<TickProgress>) -> (clock: Self)
        ensures
            clock == (Clock { fields, instance, progress, lengths: None }),
    {
        Clock { fields, instance, progress, lengths: None }
    }

    /// Where the game is in time, in one pass.
    ///
    /// One call a tick rather than one per counter: the day number is wanted for
    /// the log and the rest for game time, and reading them apart would give two
    /// numbers that could come from either side of a rollover.
    pub fn read<M: Memory>(&mut self, memory: &M) -> (reading: Option<Reading>)
        ensures
            match i32_at(memory, plus(old(self).instance, old(self).fields.day_number as u64)) {
                Some(day_number) => reading == Some(
                    Reading { day_number, within: within_of(memory, *old(self)) },
                ) && *final(self) == (Clock {
                    lengths: lengths_of(memory, *old(self)),
                    ..*old(self)
                }),
                None => reading is None && *final(self) == *old(self),
            },
    {
        match read_i32(memory, offset_by(self.instance, self.fields.day_number as u64)) {
            Some(day_number) => {
                let within = self.within(memory);
                Some(Reading { day_number, within })
            },
            None => None,
        }
    }

    /// Where the game is within the day.
    ///
    /// **The tick counter is read before the progress within it, and the order
    /// is load-bearing.** A tick can turn between the two reads, and this way
    /// round the pair is at worst a whole tick stale -- the count from the old
    /// tick, the progress from the new one near zero -- which only ever
    /// understates. The other order would overshoot by a tick and then fall
    /// back: a timer running backwards, which is the one thing game time must
    /// never do.
    fn within<M: Memory>(&mut self, memory: &M) -> (within: Option<Within>)
        ensures
            within == within_of(memory, *old(self)),
            *final(self) == (Clock { lengths: lengths_of(memory, *old(self)), ..*old(self) }),
    {
        let lengths = self.ticks_per_day(memory);
        match (lengths, self.fields.sub_day) {
            (Some(lengths), Some(sub_day)) => {
                let place = offset_by(self.instance, sub_day.ticks_today as u64);
                match read_i32(memory, place) {
                    Some(ticks) => {
                        let progress = match &self.progress {
                            Some(progress) => match read_u32(
                                memory,
                                offset_by(progress.instance, progress.offset as u64),
                            ) {
                                Some(bits) => bits,
                                None => 0,
                            },
                            None => 0,
                        };
                        Some(Within { ticks, progress, lengths })
                    },
                    None => None,
                }
            },
            _ => None,
        }
    }

    /// The lengths that make the ticks in a day.
    ///
    /// `None` until the game has loaded far enough for them to be non-zero.
    pub fn ticks_per_day<M: Memory>(&mut self, memory: &M) -> (lengths: Option<Lengths>)
        ensures
            lengths == lengths_of(memory, *old(self)),
            *final(self) == (Clock { lengths: lengths_of(memory, *old(self)), ..*old(self) }),
    {
        if self.lengths.is_some() {
            return self.lengths;
        }
        let sub_day: SubDay = match self.fields.sub_day {
            Some(sub_day) => sub_day,
            None => {
                return None;
            },
        };
        let hours = read_u32(memory, offset_by(self.instance, sub_day.hours_per_tick as u64));
        let day = read_u32(memory, offset_by(self.instance, sub_day.daytime as u64));
        let night = read_u32(memory, offset_by(self.instance, sub_day.nighttime as u64));
        match (hours, day, night) {
            (Some(hours_per_tick), Some(daytime), Some(nighttime)) => {
                if sure_not_positive(hours_per_tick) || sum_never_positive(daytime, nighttime) {
                    return None;
                }
                self.lengths = Some(Lengths { hours_per_tick, daytime, nighttime });
                self.lengths
            },
            _ => None,
        }
    }
}

/// The game-time side of a run: the baseline, and what the host is asked for.
///
/// Held above [`Clock`] rather than beside it, because the host's pause state is
/// per-attach and survives both a scene change and a reset, while a `Clock`
/// belongs to one game. Days are the bits of doubles.
#[derive(Clone, Copy, PartialEq, Eq, Structural, Debug)]
pub struct GameTime {
    /// Whether the host's automatic flow of game time has been stopped. Sticky
    /// host state, so this happens once, and not until there is a run being
    /// timed and a clock to time it by.
    pub paused: bool,
    /// The fractional day the run started on. `None` means no run start was
    /// seen, and so nothing may be pushed: a run whose zero is unknown would get
    /// a plausible-looking wrong time.
    pub baseline: Option<u64>,
    /// So the two explanations are each said once rather than every tick.
    pub warned_no_baseline: bool,
    pub warned_lost: bool,
}

/// What the host is asked for about game time.
#[derive(Clone, Copy, PartialEq, Eq, Structural, Debug)]
pub enum Push {
    /// Nothing.
    Nothing,
    /// Log that the timer is running but no run start was seen.
    NoBaseline,
    /// Tell the runner that the clock was lost and game time is frozen.
    Lost,
    /// Set the game time to what has passed from `baseline` to `day`, having
    /// stopped the host's own flow of it first where `pause` says so.
    Give { pause: bool, baseline: u64, day: u64 },
}

impl Push {
    /// What the host is told besides.
    pub open spec fn told(self) -> Option<Telling> {
        match self {
            Push::NoBaseline => Some(Telling::NoBaseline),
            Push::Lost => Some(Telling::ClockLost),
            _ => None,
        }
    }

    /// What the host is told besides.
    pub fn telling(&self) -> (telling: Option<Telling>)
        ensures
            telling == self.told(),
    {
        match self {
            Push::NoBaseline => Some(Telling::NoBaseline),
            Push::Lost => Some(Telling::ClockLost),
            _ => None,
        }
    }
}

/// What the host is told about game time.
#[derive(Clone, Copy, PartialEq, Eq, Structural, Debug)]
pub enum Telling {
    /// The service that says how far through a tick the game is was found.
    MovesBetweenTicks { instance: u64 },
    /// A run started before there was a clock, and is timed from where a new
    /// game begins.
    StartsAtNewGame,
    /// A run is timed from this day, by the bits of a double.
    StartsFrom { day: u64 },
    /// A run started on a clock that could not be read.
    StartsUnread,
    /// The timer is running, and no run start was seen.
    NoBaseline,
    /// The clock can no longer be read.
    ClockLost,
}

/// What is said of the day that a run is timed from, as it is printed, and of how
/// many ticks that is from where a new game begins, where it is worth saying.
pub open spec fn starts_from_line(day: Seq<char>, drift: Option<Seq<char>>) -> Seq<char> {
    "Game time starts from day "@ + day + match drift {
        Some(ticks) => ", which is "@ + ticks
            + " ticks from where a new game begins. Expected 1.1667."@,
        None => "."@,
    }
}

/// What is said of the day that a run is timed from.
///
/// The numbers come as they are printed: the day to four places, and the ticks
/// to none, where there are more than a few of them.
pub fn starts_from_text(day: &str, drift: Option<&str>) -> (text: String)
    ensures
        text@ == starts_from_line(
            day@,
            match drift {
                Some(ticks) => Some(ticks@),
                None => None,
            },
        ),
{
    let mut text = owned("Game time starts from day ");
    text.append(day);
    match drift {
        Some(ticks) => {
            text.append(", which is ");
            text.append(ticks);
            text.append(" ticks from where a new game begins. Expected 1.1667.");
            assert(text@ =~= starts_from_line(day@, Some(ticks@)));
        },
        None => {
            text.append(".");
            assert(text@ =~= starts_from_line(day@, None));
        },
    }
    text
}

/// What is said of a day of the usual length, its numbers as they are printed:
/// the ticks of a day, the in-game hours of its two parts, and those of a tick.
pub open spec fn day_length_line(
    ticks: Seq<char>,
    daytime: Seq<char>,
    nighttime: Seq<char>,
    hours_per_tick: Seq<char>,
) -> Seq<char> {
    "Clock: "@ + ticks + " ticks a day ("@ + daytime + "+"@ + nighttime + " in-game hours at "@
        + hours_per_tick + " an hour a tick)."@
}

/// What is said of a day of the usual length.
pub fn day_length_text(
    ticks: &str,
    daytime: &str,
    nighttime: &str,
    hours_per_tick: &str,
) -> (text: String)
    ensures
        text@ == day_length_line(ticks@, daytime@, nighttime@, hours_per_tick@),
{
    let mut text = owned("Clock: ");
    text.append(ticks);
    text.append(" ticks a day (");
    text.append(daytime);
    text.append("+");
    text.append(nighttime);
    text.append(" in-game hours at ");
    text.append(hours_per_tick);
    text.append(" an hour a tick).");
    assert(text@ =~= day_length_line(ticks@, daytime@, nighttime@, hours_per_tick@));
    text
}

/// What the runner is told of a day of any other length, its ticks as they are
/// printed.
pub open spec fn odd_day_line(ticks: Seq<char>) -> Seq<char> {
    "This game's day is "@ + ticks
        + " ticks, not 768. Game time will not be comparable with other runs."@
}

/// What the runner is told of a day of any other length.
pub fn odd_day_text(ticks: &str) -> (text: String)
    ensures
        text@ == odd_day_line(ticks@),
{
    let mut text = owned("This game's day is ");
    text.append(ticks);
    text.append(" ticks, not 768. Game time will not be comparable with other runs.");
    assert(text@ =~= odd_day_line(ticks@));
    text
}

impl Telling {
    /// Whether the runner has to see it, and not the log alone.
    pub open spec fn warns(self) -> bool {
        self is StartsUnread || self is ClockLost
    }

    /// The line, but for the one with a number in it that is held by its bits:
    /// that is [`starts_from_line`].
    pub open spec fn line(self) -> Option<Seq<char>> {
        match self {
            Telling::MovesBetweenTicks { instance } => Some(
                "Found TickProgressService at "@ + hex_text(instance as int)
                    + ". Game time will move between ticks."@,
            ),
            Telling::StartsAtNewGame => Some(
                "Run started before the clock was located. Game time starts from day 1.1667, where a new game begins."@,
            ),
            Telling::StartsFrom { .. } => None,
            Telling::StartsUnread => Some(
                "Run started, but the clock could not be read. No game time."@,
            ),
            Telling::NoBaseline => Some(
                "The timer is running but no run start was seen, so there is no baseline and game time is not being set."@,
            ),
            Telling::ClockLost => Some("The clock was lost mid-run. Game time is frozen."@),
        }
    }

    /// Whether the runner has to see it, and not the log alone.
    pub fn is_warning(&self) -> (warning: bool)
        ensures
            warning == self.warns(),
    {
        matches!(self, Telling::StartsUnread | Telling::ClockLost)
    }

    /// The line, but for the one that [`starts_from_text`] gives.
    pub fn text(&self) -> (text: Option<String>)
        ensures
            text is Some <==> self.line() is Some,
            text matches Some(text) ==> text@ == self.line()->0,
    {
        match *self {
            Telling::MovesBetweenTicks { instance } => {
                let mut text = owned("Found TickProgressService at ");
                push_hex(&mut text, instance);
                text.append(". Game time will move between ticks.");
                assert(text@ =~= self.line()->0);
                Some(text)
            },
            Telling::StartsAtNewGame => Some(
                owned(
                    "Run started before the clock was located. Game time starts from day 1.1667, where a new game begins.",
                ),
            ),
            Telling::StartsFrom { .. } => None,
            Telling::StartsUnread => Some(
                owned("Run started, but the clock could not be read. No game time."),
            ),
            Telling::NoBaseline => Some(
                owned(
                    "The timer is running but no run start was seen, so there is no baseline and game time is not being set.",
                ),
            ),
            Telling::ClockLost => Some(owned("The clock was lost mid-run. Game time is frozen.")),
        }
    }
}

impl Default for GameTime {
    fn default() -> (time: Self)
        ensures
            time == (GameTime {
                paused: false,
                baseline: None,
                warned_no_baseline: false,
                warned_lost: false,
            }),
    {
        GameTime { paused: false, baseline: None, warned_no_baseline: false, warned_lost: false }
    }
}

/// What a tick asks for.
pub open spec fn pushed(time: GameTime, running: bool, day: Option<u64>) -> Push {
    if !running {
        Push::Nothing
    } else {
        match (time.baseline, day) {
            (None, _) => if time.warned_no_baseline {
                Push::Nothing
            } else {
                Push::NoBaseline
            },
            (Some(_), None) => if time.warned_lost {
                Push::Nothing
            } else {
                Push::Lost
            },
            (Some(baseline), Some(day)) => Push::Give { pause: !time.paused, baseline, day },
        }
    }
}

/// What a tick leaves behind.
pub open spec fn after_update(time: GameTime, running: bool, day: Option<u64>) -> GameTime {
    if !running {
        time
    } else {
        match (time.baseline, day) {
            (None, _) => GameTime { warned_no_baseline: true, ..time },
            (Some(_), None) => GameTime { warned_lost: true, ..time },
            (Some(_), Some(_)) => GameTime { paused: true, warned_lost: false, ..time },
        }
    }
}

impl GameTime {
    /// Takes the baseline for a run that started before there was a clock to
    /// read.
    ///
    /// The run start can fire during the scan that locates the container the
    /// clock lives in, and at that moment there is nothing to sample. The
    /// constant is not a guess: the splitter only ever starts a run on a *new*
    /// game, and a new game's clock is at [`NEW_GAME_DAY`]. Returns what the host
    /// is told.
    pub fn begin_at_new_game(&mut self) -> (telling: Telling)
        ensures
            telling == Telling::StartsAtNewGame,
            *final(self) == (GameTime {
                baseline: Some(NEW_GAME_DAY),
                warned_no_baseline: false,
                warned_lost: false,
                ..*old(self)
            }),
    {
        self.warned_no_baseline = false;
        self.warned_lost = false;
        self.baseline = Some(NEW_GAME_DAY);
        Telling::StartsAtNewGame
    }

    /// Takes the baseline, on the tick the run starts.
    ///
    /// `None` is a clock that could not be read at that moment, which leaves the
    /// run untimed rather than timed from a guess: a clock that was located and
    /// then would not read is a broken world rather than a missing one, and a
    /// number invented for it would be believed. Returns what the host is told.
    pub fn begin(&mut self, day: Option<u64>) -> (telling: Telling)
        ensures
            telling == match day {
                Some(day) => Telling::StartsFrom { day },
                None => Telling::StartsUnread,
            },
            *final(self) == (GameTime {
                baseline: day,
                warned_no_baseline: false,
                warned_lost: false,
                ..*old(self)
            }),
    {
        self.warned_no_baseline = false;
        self.warned_lost = false;
        self.baseline = day;
        match day {
            Some(day) => Telling::StartsFrom { day },
            None => Telling::StartsUnread,
        }
    }

    /// What to ask of the host this tick. Called every tick, before anything
    /// splits, so the final split records this tick rather than the last one.
    ///
    /// `day` is `None` when the clock cannot be read. That freezes game time
    /// where it is, deliberately: the counterpart would have the host
    /// interpolate real time into a game-timed run, which looks right and is
    /// not.
    pub fn update(&mut self, running: bool, day: Option<u64>) -> (push: Push)
        ensures
            push == pushed(*old(self), running, day),
            *final(self) == after_update(*old(self), running, day),
    {
        if !running {
            return Push::Nothing;
        }
        let baseline: u64 = match self.baseline {
            Some(baseline) => baseline,
            None => {
                if self.warned_no_baseline {
                    return Push::Nothing;
                }
                self.warned_no_baseline = true;
                return Push::NoBaseline;
            },
        };
        match day {
            Some(day) => {
                let pause = !self.paused;
                self.warned_lost = false;
                self.paused = true;
                Push::Give { pause, baseline, day }
            },
            None => {
                if self.warned_lost {
                    return Push::Nothing;
                }
                self.warned_lost = true;
                Push::Lost
            },
        }
    }
}

/// What happens to game time.
pub enum Moment {
    /// A run starts, at the day the clock says, if it can be read.
    Begin(Option<u64>),
    /// A run starts before there is a clock.
    BeginAtNewGame,
    /// A tick.
    Tick { running: bool, day: Option<u64> },
}

/// What is left after several of them.
pub open spec fn after_moments(time: GameTime, moments: Seq<Moment>) -> GameTime
    decreases moments.len(),
{
    if moments.len() == 0 {
        time
    } else {
        let before = after_moments(time, moments.drop_last());
        match moments.last() {
            Moment::Begin(day) => GameTime {
                baseline: day,
                warned_no_baseline: false,
                warned_lost: false,
                ..before
            },
            Moment::BeginAtNewGame => GameTime {
                baseline: Some(NEW_GAME_DAY),
                warned_no_baseline: false,
                warned_lost: false,
                ..before
            },
            Moment::Tick { running, day } => after_update(before, running, day),
        }
    }
}

/// The host's own flow of game time is stopped once and never again, whatever
/// runs start and whatever the clock does in between.
pub proof fn game_time_is_paused_once(
    time: GameTime,
    running: bool,
    day: Option<u64>,
    moments: Seq<Moment>,
    again: bool,
    later: Option<u64>,
)
    requires
        pushed(time, running, day) is Give,
    ensures
        match pushed(after_moments(after_update(time, running, day), moments), again, later) {
            Push::Give { pause, .. } => !pause,
            _ => true,
        },
    decreases moments.len(),
{
    lemma_stays_paused(after_update(time, running, day), moments);
}

proof fn lemma_stays_paused(time: GameTime, moments: Seq<Moment>)
    requires
        time.paused,
    ensures
        after_moments(time, moments).paused,
    decreases moments.len(),
{
    if moments.len() > 0 {
        lemma_stays_paused(time, moments.drop_last());
    }
}

/// Nothing is pushed for a run whose start was not seen, however long it runs.
pub proof fn no_game_time_without_a_run_start(moments: Seq<Moment>, running: bool, day: Option<u64>)
    requires
        forall|i: int| 0 <= i < moments.len() ==> (#[trigger] moments[i]) is Tick,
    ensures
        ({
            let time = GameTime {
                paused: false,
                baseline: None,
                warned_no_baseline: false,
                warned_lost: false,
            };
            pushed(after_moments(time, moments), running, day) !is Give
        }),
{
    let time = GameTime {
        paused: false,
        baseline: None,
        warned_no_baseline: false,
        warned_lost: false,
    };
    lemma_no_baseline(time, moments);
}

proof fn lemma_no_baseline(time: GameTime, moments: Seq<Moment>)
    requires
        time.baseline is None,
        forall|i: int| 0 <= i < moments.len() ==> (#[trigger] moments[i]) is Tick,
    ensures
        after_moments(time, moments).baseline is None,
    decreases moments.len(),
{
    if moments.len() > 0 {
        let init = moments.drop_last();
        assert forall|i: int| 0 <= i < init.len() implies (#[trigger] init[i]) is Tick by {
            assert(init[i] == moments[i]);
        }
        lemma_no_baseline(time, init);
    }
}

} // verus!
