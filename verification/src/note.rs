//! What the splitter says in its log, as values.
//!
//! Every decision that is worth a line in the log comes back as a [`Note`], so
//! that contracts can speak of it; [`Note::text`] is the line itself.
use vstd::prelude::*;
use vstd::string::StringExecFns;

use crate::buildings::Split;
use crate::run_start::{name_of, state_name};
use crate::scan::Stats;
use crate::scene::Scene;
use crate::text::{decimal_text, hex_text, owned, push_decimal, push_hex, push_signed};

verus! {

/// Why a search had to sweep the whole address space.
#[derive(Clone, Copy)]
pub enum Why {
    NoTable,
    TableUnreadable,
    TableHasNone,
    /// The table held this many, and none would do.
    NoneAcceptable(usize),
    TableHasNoContainer,
    /// The table held this many containers, and none was this game's.
    NoneThisGames(usize),
}

/// What stops the buildings from being watched yet.
#[derive(Clone, Copy)]
pub enum Missing {
    ComponentCacheField,
    NameField,
    ComponentsField,
    StateField,
    BlockObjectState,
    Checker,
    CheckerInContainer,
    RegistryField,
    RegistryNull,
    OrderField,
    EntitiesNull,
    NotAList,
}

/// A line of the splitter's log.
#[derive(Clone, Copy)]
pub enum Note {
    Greeting,
    AttachedTo { name: &'static str },
    AttachedToPid { pid: u64, name: &'static str },
    StillLooking,
    AttachedToRuntime,
    WaitingForGame,
    LookingForTable,
    TableReferences { count: usize, anchor: u64 },
    TableFound { base: u64, size: u64, headers: u32 },
    NoTable,
    TableGivenUp,
    TableResized { base: u64, size: u64, was: u64 },
    TableAnswered { name: &'static str, count: usize },
    SweepStarting { name: &'static str, why: Why },
    SweepDone { name: &'static str, stats: Stats, found: usize, rejected: usize },
    ContainerAt { address: u64 },
    NoContainer { conclusive: bool },
    NoLongerSkipping,
    ContainerLostClock,
    ServiceAt { name: &'static str, address: u64 },
    WatchingScenes { instance: u64, loaded: Scene },
    GameSceneLoaded { new_game: bool, bound: bool },
    SceneLoaderGone,
    SceneLoading,
    WatchingRunStart { instance: u64 },
    RunStartGone,
    InitializationState { state: i32 },
    OverlayInSave,
    OverlayBefore { watched_load: bool },
    OverlayInNamedSave { len: i32 },
    RunStarted,
    AlreadyRunning,
    DayNumber { day: i32 },
    CannotWatchBuildings { missing: Missing },
    WalkStarting { total: i32 },
    WatchingEntities { total: i32, watched: usize, finished: [bool; 6] },
    BuildingsMidRun { finished: [bool; 6] },
    BuildingSplit { split: Split },
    BuildingNoSplit { split: Split },
    WatchingUnlocks { set: u64, unlocked: bool },
    UnlockMidRun,
    WonderSplit,
    WonderNoSplit,
    WonderNeverSeen,
    WatchingCompletion { instance: u64, already: bool },
    CompletionMidRun,
    /// The wonder was activated; the day the run ends on, by its bits.
    WonderActivated { due: u32 },
    /// How long the countdown is: in-game hours, then a day's real seconds and
    /// the in-game hours of its two parts, each by its bits.
    Countdown { hours: u32, day_seconds: u32, daytime: u32, nighttime: u32 },
    RunEnd,
    RunEndNoSplit,
}

/// Something the runner needs to know.
#[derive(Clone, Copy)]
pub enum Warning {
    VersionNotSupported,
    VersionDoubtful,
    CannotTellNewGame,
    RunStartMissed,
    GameInProgress,
}

/// What the splitter asks of its host.
pub enum Action {
    /// Put a line in the log.
    Log(Note),
    /// Put this line in the log.
    Line(String),
    /// Tell the runner, and log it.
    Warn(Warning),
    /// Take down whatever the runner was told.
    ClearStatus,
    /// Start the timer.
    Start,
    /// Split.
    Split,
    /// Describe the class of the object at this address before the next tick.
    Describe(u64),
}

/// The same notes, as lines for the log.
pub open spec fn logged(notes: Seq<Note>) -> Seq<Action> {
    notes.map_values(|note: Note| Action::Log(note))
}

/// Adds notes to what is asked of the host.
pub fn say_all(out: &mut Vec<Action>, notes: &Vec<Note>)
    ensures
        final(out)@ == old(out)@ + logged(notes@),
{
    let mut i: usize = 0;
    assert(out@ =~= old(out)@ + logged(notes@.take(0)));
    while i < notes.len()
        invariant
            i <= notes@.len(),
            out@ == old(out)@ + logged(notes@.take(i as int)),
        decreases notes@.len() - i,
    {
        out.push(Action::Log(notes[i]));
        i = i + 1;
        assert(out@ =~= old(out)@ + logged(notes@.take(i as int)));
    }
    assert(notes@.take(i as int) =~= notes@);
}

/// Adds a note to what is asked of the host.
pub fn say(out: &mut Vec<Action>, note: Note)
    ensures
        final(out)@ == old(out)@.push(Action::Log(note)),
{
    out.push(Action::Log(note));
}

impl Why {
    /// The reason, in words.
    pub open spec fn line(self) -> Seq<char> {
        match self {
            Why::NoTable => "no reference table found yet"@,
            Why::TableUnreadable => "the reference table could not be read"@,
            Why::TableHasNone => "the reference table has no instance of it"@,
            Why::NoneAcceptable(count) => "the reference table held "@ + decimal_text(count as int) + " instance(s), none of them acceptable"@,
            Why::TableHasNoContainer => "the reference table has no container in it"@,
            Why::NoneThisGames(count) => "the reference table held "@ + decimal_text(count as int) + " container(s), none of them this game's"@,
        }
    }

    /// Appends the reason, in words.
    pub fn push_text(&self, text: &mut String)
        ensures
            final(text)@ == old(text)@ + self.line(),
    {
        match *self {
            Why::NoTable => {
                text.append("no reference table found yet");
            },
            Why::TableUnreadable => {
                text.append("the reference table could not be read");
            },
            Why::TableHasNone => {
                text.append("the reference table has no instance of it");
            },
            Why::NoneAcceptable(count) => {
                text.append("the reference table held ");
                push_decimal(text, count as u64);
                text.append(" instance(s), none of them acceptable");
            },
            Why::TableHasNoContainer => {
                text.append("the reference table has no container in it");
            },
            Why::NoneThisGames(count) => {
                text.append("the reference table held ");
                push_decimal(text, count as u64);
                text.append(" container(s), none of them this game's");
            },
        }
        assert(text@ =~= old(text)@ + self.line());
    }
}

impl Missing {
    /// What is missing, in words.
    pub open spec fn line(self) -> Seq<char> {
        match self {
            Missing::ComponentCacheField => "BaseComponent._componentCache"@,
            Missing::NameField => "ComponentCache._name"@,
            Missing::ComponentsField => "ComponentCache._components"@,
            Missing::StateField => "BlockObjectState._state"@,
            Missing::BlockObjectState => "BlockObjectState not constructed yet"@,
            Missing::Checker => "GameOverChecker not constructed yet"@,
            Missing::CheckerInContainer => "GameOverChecker is not in the container yet"@,
            Missing::RegistryField => "GameOverChecker._entityRegistry"@,
            Missing::RegistryNull => "GameOverChecker._entityRegistry is null"@,
            Missing::OrderField => "EntityRegistry._entitiesInInstantiationOrder"@,
            Missing::EntitiesNull => "the entity list is null"@,
            Missing::NotAList => "the entity list is not a List"@,
        }
    }

    /// What is missing, in words.
    pub fn name(&self) -> (name: &'static str)
        ensures
            name@ == self.line(),
    {
        match *self {
            Missing::ComponentCacheField => "BaseComponent._componentCache",
            Missing::NameField => "ComponentCache._name",
            Missing::ComponentsField => "ComponentCache._components",
            Missing::StateField => "BlockObjectState._state",
            Missing::BlockObjectState => "BlockObjectState not constructed yet",
            Missing::Checker => "GameOverChecker not constructed yet",
            Missing::CheckerInContainer => "GameOverChecker is not in the container yet",
            Missing::RegistryField => "GameOverChecker._entityRegistry",
            Missing::RegistryNull => "GameOverChecker._entityRegistry is null",
            Missing::OrderField => "EntityRegistry._entitiesInInstantiationOrder",
            Missing::EntitiesNull => "the entity list is null",
            Missing::NotAList => "the entity list is not a List",
        }
    }
}

impl Warning {
    /// What the runner is told.
    pub open spec fn line(self) -> Seq<char> {
        match self {
            Warning::VersionNotSupported => "Game version not supported: DayNumber missing"@,
            Warning::VersionDoubtful => "Game version may not be supported -- see the log"@,
            Warning::CannotTellNewGame => "Cannot tell a new game from a loaded save"@,
            Warning::RunStartMissed => "Run start missed"@,
            Warning::GameInProgress => "Game already in progress"@,
        }
    }

    /// What the runner is told.
    pub fn message(&self) -> (message: &'static str)
        ensures
            message@ == self.line(),
    {
        match *self {
            Warning::VersionNotSupported => "Game version not supported: DayNumber missing",
            Warning::VersionDoubtful => "Game version may not be supported -- see the log",
            Warning::CannotTellNewGame => "Cannot tell a new game from a loaded save",
            Warning::RunStartMissed => "Run start missed",
            Warning::GameInProgress => "Game already in progress",
        }
    }
}

/// What a tracked building is called on its own.
pub open spec fn building_name(slot: int) -> Seq<char> {
    if slot == 0 {
        "Forester"@
    } else if slot == 1 {
        "Gear Workshop"@
    } else if slot == 2 {
        "Tapper's Shack"@
    } else if slot == 3 {
        "Observatory / Numbercruncher"@
    } else if slot == 4 {
        "Smelter"@
    } else {
        "Wood Workshop"@
    }
}

fn building(slot: usize) -> (name: &'static str)
    ensures
        name@ == building_name(slot as int),
{
    match slot {
        0 => "Forester",
        1 => "Gear Workshop",
        2 => "Tapper's Shack",
        3 => "Observatory / Numbercruncher",
        4 => "Smelter",
        _ => "Wood Workshop",
    }
}

/// The names of the buildings finished among the first `n`, with commas between
/// them.
pub open spec fn finished_names(finished: Seq<bool>, n: int) -> Seq<char>
    decreases n,
{
    if n <= 0 {
        Seq::empty()
    } else {
        let rest = finished_names(finished, n - 1);
        if !finished[n - 1] {
            rest
        } else if rest.len() == 0 {
            building_name(n - 1)
        } else {
            rest + ", "@ + building_name(n - 1)
        }
    }
}

/// The names of the buildings finished, or that there are none.
pub open spec fn finished_line(finished: Seq<bool>) -> Seq<char> {
    let names = finished_names(finished, 6);
    if names.len() == 0 {
        "none"@
    } else {
        names
    }
}

/// The names of the buildings finished, or that there are none.
pub fn describe_finished(finished: &[bool; 6]) -> (text: String)
    ensures
        text@ == finished_line(finished@),
{
    let mut text = String::new();
    let mut i: usize = 0;
    while i < 6
        invariant
            i <= 6,
            text@ == finished_names(finished@, i as int),
        decreases 6 - i,
    {
        if finished[i] {
            if !text.as_str().is_empty() {
                text.append(", ");
            }
            text.append(building(i));
            assert(text@ =~= finished_names(finished@, i + 1));
        }
        i = i + 1;
    }
    if text.as_str().is_empty() {
        return owned("none");
    }
    text
}

fn push_finished(text: &mut String, finished: &[bool; 6])
    ensures
        final(text)@ == old(text)@ + finished_line(finished@),
{
    let names = describe_finished(finished);
    text.append(names.as_str());
}

impl Note {
    /// The line, in words.
    pub open spec fn line(self) -> Seq<char> {
        match self {
            Note::Greeting => "Timberborn auto splitter."@,
            Note::AttachedTo { name } => "Attached to "@ + name@ + "."@,
            Note::AttachedToPid { pid, name } => "Attached to pid "@ + decimal_text(pid as int) + ", which reports as \""@ + name@ + "\" but has Timberborn.exe mapped."@,
            Note::StillLooking => "Still looking for Timberborn..."@,
            Note::AttachedToRuntime => "Attached to the Mono runtime."@,
            Note::WaitingForGame => "Waiting for the game to load..."@,
            Note::LookingForTable => "[table] looking for the runtime's reference table."@,
            Note::TableReferences { count, anchor } => "[table] "@ + decimal_text(count as int) + " references to "@ + hex_text(anchor as int) + "."@,
            Note::TableFound { base, size, headers } => "[table] found at "@ + hex_text(base as int) + ", "@ + decimal_text((size / 1024) as int) + " KiB, "@ + decimal_text(headers as int) + " object headers in it."@,
            Note::NoTable => "[table] no candidate range was one; sweeps it is."@,
            Note::TableGivenUp => "[table] no reference table after three tries; sweeps it is from here on."@,
            Note::TableResized { base, size, was } => "[table] "@ + hex_text(base as int) + " is now "@ + decimal_text((size / 1024) as int) + " KiB, was "@ + decimal_text((was / 1024) as int) + " KiB."@,
            Note::TableAnswered { name, count } => "[table] "@ + name@ + ": "@ + decimal_text(count as int) + " live instances."@,
            Note::SweepStarting { name, why } => "[scan] "@ + name@ + " starting (full sweep -- "@ + why.line() + ")."@,
            Note::SweepDone { name, stats, found, rejected } => "[scan] "@ + name@ + " done: "@ + decimal_text(stats.slices as int) + " slices, "@ + decimal_text((stats.bytes_scanned / 0x10_0000) as int) + " of "@ + decimal_text((stats.bytes_total / 0x10_0000) as int) + " MiB over "@ + decimal_text(stats.ranges_scanned as int) + " ranges ("@ + decimal_text(stats.ranges_skipped as int) + " skipped), "@ + decimal_text(stats.read_failures as int) + " chunk read failures, "@ + decimal_text((stats.bytes_unreadable / 1024) as int) + " KiB unreadable, "@ + decimal_text(found as int) + " found, "@ + decimal_text(rejected as int) + " rejected."@,
            Note::ContainerAt { address } => "The game's singleton container is at "@ + hex_text(address as int) + "."@,
            Note::NoContainer { conclusive: true } => "No singleton container with a clock in it -- no game loaded. Waiting."@,
            Note::NoContainer { conclusive: false } => "No singleton container found, but the scan was incomplete, so this is not conclusive. Waiting."@,
            Note::NoLongerSkipping => "Nothing found but the container just left, so it belongs to this game after all. No longer skipping it."@,
            Note::ContainerLostClock => "The container lost its clock between scans. Waiting."@,
            Note::ServiceAt { name, address } => "Found "@ + name@ + " at "@ + hex_text(address as int) + "."@,
            Note::WatchingScenes { instance, loaded } => "Watching scene loads at "@ + hex_text(instance as int) + ". Last load: "@ + loaded.line() + "."@,
            Note::GameSceneLoaded { new_game, bound } => "A game scene loaded ("@ + (if new_game { "new game"@ } else { "loaded save"@ }) + "), run start "@ + (if bound { "bound during the load"@ } else { "not bound during the load"@ }) + "."@,
            Note::SceneLoaderGone => "The scene loader is gone. Re-resolving it."@,
            Note::SceneLoading => "A scene is loading. Everything will be resolved again."@,
            Note::WatchingRunStart { instance } => "Watching run start at "@ + hex_text(instance as int) + "."@,
            Note::RunStartGone => "The GameInitializer being watched is gone. Re-resolving run start."@,
            Note::InitializationState { state } => "initializationState = "@ + decimal_text(state as int) + state_name(state),
            Note::OverlayInSave => "Overlay shown, but this game was loaded from a save. Not a run start."@,
            Note::OverlayBefore { watched_load: true } => "WARNING: a new game was loading, but this watcher was bound after the overlay had already appeared. Not starting the timer, since the start time would be wrong."@,
            Note::OverlayBefore { watched_load: false } => "WARNING: the overlay was already shown when this watcher bound, and the load into this game was not watched, so it was already up. Not starting the timer."@,
            Note::OverlayInNamedSave { len } => "Overlay shown, but this is a loaded save (SourceFileName is "@ + decimal_text(len as int) + " chars). Not a run start."@,
            Note::RunStarted => "Run start: overlay shown. Starting the timer."@,
            Note::AlreadyRunning => "Run start seen, but the timer is already running."@,
            Note::DayNumber { day } => "DayNumber = "@ + decimal_text(day as int),
            Note::CannotWatchBuildings { missing } => "buildings: cannot resolve yet -- "@ + missing.line(),
            Note::WalkStarting { total } => "[entities] opening walk starting over "@ + decimal_text(total as int) + " entities."@,
            Note::WatchingEntities { total, watched, finished } => "Watching "@ + decimal_text(total as int) + " entities for "@ + decimal_text(watched as int) + " tracked buildings. Already finished in this save: "@ + finished_line(finished@) + "."@,
            Note::BuildingsMidRun { finished } => "Bound after the run started, so treating these as built during it rather than already there: "@ + finished_line(finished@) + "."@,
            Note::BuildingSplit { split } => "Split: "@ + split.name() + " finished."@,
            Note::BuildingNoSplit { split } => split.name() + " finished, but not splitting."@,
            Note::WatchingUnlocks { set, unlocked } => "Watching building unlocks at "@ + hex_text(set as int) + ". Wonder already unlocked in this save: "@ + (if unlocked { "true"@ } else { "false"@ }) + "."@,
            Note::UnlockMidRun => "The wonder reads as unlocked, but this watcher was bound after the run started, so that belongs to the game before it. Watching for the unlock anyway."@,
            Note::WonderSplit => "Split: wonder unlocked."@,
            Note::WonderNoSplit => "Wonder unlocked, but not splitting."@,
            Note::WonderNeverSeen => "WARNING: the run ended but the wonder was never seen unlocked. The template name for this faction is probably wrong."@,
            Note::WatchingCompletion { instance, already } => "Watching wonder completion at "@ + hex_text(instance as int) + " (run end per the rules). Already finished in this save: "@ + (if already { "true"@ } else { "false"@ }) + "."@,
            Note::CompletionMidRun => "The countdown reads as already finished, but this watcher was bound after the run started, so that belongs to the game before it. Watching for the run end anyway."@,
            Note::WonderActivated { .. } => "Wonder activated (not the run end)."@,
            Note::Countdown { .. } => "Countdown: this is how far activation precedes the run end."@,
            Note::RunEnd => "Run end: Congratulations screen. Splitting."@,
            Note::RunEndNoSplit => "Congratulations screen reached, but the timer is not running so nothing was split."@,
        }
    }

    /// The line, in words.
    ///
    /// Numbers that are held by their bits are left out of it: for whoever can
    /// print a float, [`activation_text`] and [`countdown_text`] have the room.
    pub fn text(&self) -> (text: String)
        ensures
            text@ == self.line(),
    {
        let mut text: String;
        match *self {
            Note::Greeting => {
                text = owned("Timberborn auto splitter.");
            },
            Note::AttachedTo { name } => {
                text = owned("Attached to ");
                text.append(name);
                text.append(".");
            },
            Note::AttachedToPid { pid, name } => {
                text = owned("Attached to pid ");
                push_decimal(&mut text, pid as u64);
                text.append(", which reports as \"");
                text.append(name);
                text.append("\" but has Timberborn.exe mapped.");
            },
            Note::StillLooking => {
                text = owned("Still looking for Timberborn...");
            },
            Note::AttachedToRuntime => {
                text = owned("Attached to the Mono runtime.");
            },
            Note::WaitingForGame => {
                text = owned("Waiting for the game to load...");
            },
            Note::LookingForTable => {
                text = owned("[table] looking for the runtime's reference table.");
            },
            Note::TableReferences { count, anchor } => {
                text = owned("[table] ");
                push_decimal(&mut text, count as u64);
                text.append(" references to ");
                push_hex(&mut text, anchor);
                text.append(".");
            },
            Note::TableFound { base, size, headers } => {
                text = owned("[table] found at ");
                push_hex(&mut text, base);
                text.append(", ");
                push_decimal(&mut text, (size / 1024) as u64);
                text.append(" KiB, ");
                push_decimal(&mut text, headers as u64);
                text.append(" object headers in it.");
            },
            Note::NoTable => {
                text = owned("[table] no candidate range was one; sweeps it is.");
            },
            Note::TableGivenUp => {
                text = owned("[table] no reference table after three tries; sweeps it is from here on.");
            },
            Note::TableResized { base, size, was } => {
                text = owned("[table] ");
                push_hex(&mut text, base);
                text.append(" is now ");
                push_decimal(&mut text, (size / 1024) as u64);
                text.append(" KiB, was ");
                push_decimal(&mut text, (was / 1024) as u64);
                text.append(" KiB.");
            },
            Note::TableAnswered { name, count } => {
                text = owned("[table] ");
                text.append(name);
                text.append(": ");
                push_decimal(&mut text, count as u64);
                text.append(" live instances.");
            },
            Note::SweepStarting { name, why } => {
                text = owned("[scan] ");
                text.append(name);
                text.append(" starting (full sweep -- ");
                why.push_text(&mut text);
                text.append(").");
            },
            Note::SweepDone { name, stats, found, rejected } => {
                text = owned("[scan] ");
                text.append(name);
                text.append(" done: ");
                push_decimal(&mut text, stats.slices as u64);
                text.append(" slices, ");
                push_decimal(&mut text, (stats.bytes_scanned / 0x10_0000) as u64);
                text.append(" of ");
                push_decimal(&mut text, (stats.bytes_total / 0x10_0000) as u64);
                text.append(" MiB over ");
                push_decimal(&mut text, stats.ranges_scanned as u64);
                text.append(" ranges (");
                push_decimal(&mut text, stats.ranges_skipped as u64);
                text.append(" skipped), ");
                push_decimal(&mut text, stats.read_failures as u64);
                text.append(" chunk read failures, ");
                push_decimal(&mut text, (stats.bytes_unreadable / 1024) as u64);
                text.append(" KiB unreadable, ");
                push_decimal(&mut text, found as u64);
                text.append(" found, ");
                push_decimal(&mut text, rejected as u64);
                text.append(" rejected.");
            },
            Note::ContainerAt { address } => {
                text = owned("The game's singleton container is at ");
                push_hex(&mut text, address);
                text.append(".");
            },
            Note::NoContainer { conclusive: true } => {
                text = owned("No singleton container with a clock in it -- no game loaded. Waiting.");
            },
            Note::NoContainer { conclusive: false } => {
                text = owned("No singleton container found, but the scan was incomplete, so this is not conclusive. Waiting.");
            },
            Note::NoLongerSkipping => {
                text = owned("Nothing found but the container just left, so it belongs to this game after all. No longer skipping it.");
            },
            Note::ContainerLostClock => {
                text = owned("The container lost its clock between scans. Waiting.");
            },
            Note::ServiceAt { name, address } => {
                text = owned("Found ");
                text.append(name);
                text.append(" at ");
                push_hex(&mut text, address);
                text.append(".");
            },
            Note::WatchingScenes { instance, loaded } => {
                text = owned("Watching scene loads at ");
                push_hex(&mut text, instance);
                text.append(". Last load: ");
                text.append(loaded.name());
                text.append(".");
            },
            Note::GameSceneLoaded { new_game, bound } => {
                text = owned("A game scene loaded (");
                text.append(if new_game { "new game" } else { "loaded save" });
                text.append("), run start ");
                text.append(if bound { "bound during the load" } else { "not bound during the load" });
                text.append(".");
            },
            Note::SceneLoaderGone => {
                text = owned("The scene loader is gone. Re-resolving it.");
            },
            Note::SceneLoading => {
                text = owned("A scene is loading. Everything will be resolved again.");
            },
            Note::WatchingRunStart { instance } => {
                text = owned("Watching run start at ");
                push_hex(&mut text, instance);
                text.append(".");
            },
            Note::RunStartGone => {
                text = owned("The GameInitializer being watched is gone. Re-resolving run start.");
            },
            Note::InitializationState { state } => {
                text = owned("initializationState = ");
                push_signed(&mut text, state);
                text.append(name_of(state));
            },
            Note::OverlayInSave => {
                text = owned("Overlay shown, but this game was loaded from a save. Not a run start.");
            },
            Note::OverlayBefore { watched_load: true } => {
                text = owned("WARNING: a new game was loading, but this watcher was bound after the overlay had already appeared. Not starting the timer, since the start time would be wrong.");
            },
            Note::OverlayBefore { watched_load: false } => {
                text = owned("WARNING: the overlay was already shown when this watcher bound, and the load into this game was not watched, so it was already up. Not starting the timer.");
            },
            Note::OverlayInNamedSave { len } => {
                text = owned("Overlay shown, but this is a loaded save (SourceFileName is ");
                push_signed(&mut text, len);
                text.append(" chars). Not a run start.");
            },
            Note::RunStarted => {
                text = owned("Run start: overlay shown. Starting the timer.");
            },
            Note::AlreadyRunning => {
                text = owned("Run start seen, but the timer is already running.");
            },
            Note::DayNumber { day } => {
                text = owned("DayNumber = ");
                push_signed(&mut text, day);
            },
            Note::CannotWatchBuildings { missing } => {
                text = owned("buildings: cannot resolve yet -- ");
                text.append(missing.name());
            },
            Note::WalkStarting { total } => {
                text = owned("[entities] opening walk starting over ");
                push_signed(&mut text, total);
                text.append(" entities.");
            },
            Note::WatchingEntities { total, watched, finished } => {
                text = owned("Watching ");
                push_signed(&mut text, total);
                text.append(" entities for ");
                push_decimal(&mut text, watched as u64);
                text.append(" tracked buildings. Already finished in this save: ");
                push_finished(&mut text, &finished);
                text.append(".");
            },
            Note::BuildingsMidRun { finished } => {
                text = owned("Bound after the run started, so treating these as built during it rather than already there: ");
                push_finished(&mut text, &finished);
                text.append(".");
            },
            Note::BuildingSplit { split } => {
                text = owned("Split: ");
                text.append(split.label());
                text.append(" finished.");
            },
            Note::BuildingNoSplit { split } => {
                text = owned(split.label());
                text.append(" finished, but not splitting.");
            },
            Note::WatchingUnlocks { set, unlocked } => {
                text = owned("Watching building unlocks at ");
                push_hex(&mut text, set);
                text.append(". Wonder already unlocked in this save: ");
                text.append(if unlocked { "true" } else { "false" });
                text.append(".");
            },
            Note::UnlockMidRun => {
                text = owned("The wonder reads as unlocked, but this watcher was bound after the run started, so that belongs to the game before it. Watching for the unlock anyway.");
            },
            Note::WonderSplit => {
                text = owned("Split: wonder unlocked.");
            },
            Note::WonderNoSplit => {
                text = owned("Wonder unlocked, but not splitting.");
            },
            Note::WonderNeverSeen => {
                text = owned("WARNING: the run ended but the wonder was never seen unlocked. The template name for this faction is probably wrong.");
            },
            Note::WatchingCompletion { instance, already } => {
                text = owned("Watching wonder completion at ");
                push_hex(&mut text, instance);
                text.append(" (run end per the rules). Already finished in this save: ");
                text.append(if already { "true" } else { "false" });
                text.append(".");
            },
            Note::CompletionMidRun => {
                text = owned("The countdown reads as already finished, but this watcher was bound after the run started, so that belongs to the game before it. Watching for the run end anyway.");
            },
            Note::WonderActivated { .. } => {
                text = owned("Wonder activated (not the run end).");
            },
            Note::Countdown { .. } => {
                text = owned("Countdown: this is how far activation precedes the run end.");
            },
            Note::RunEnd => {
                text = owned("Run end: Congratulations screen. Splitting.");
            },
            Note::RunEndNoSplit => {
                text = owned("Congratulations screen reached, but the timer is not running so nothing was split.");
            },
        }
        text
    }
}

/// What is said of the wonder's activation, the day as it is printed.
pub open spec fn activation_line(day: Seq<char>) -> Seq<char> {
    "Wonder activated (not the run end). Completion due on day "@ + day + "."@
}

/// What is said of the wonder's activation: [`Note::WonderActivated`] with its
/// number.
pub fn activation_text(day: &str) -> (text: String)
    ensures
        text@ == activation_line(day@),
{
    let mut text = owned("Wonder activated (not the run end). Completion due on day ");
    text.append(day);
    text.append(".");
    assert(text@ =~= activation_line(day@));
    text
}

/// What is said of the countdown's length, its numbers as they are printed: its
/// in-game hours, the real seconds those are, the in-game hours of a day's two
/// parts, and a day's real seconds.
pub open spec fn countdown_line(
    hours: Seq<char>,
    seconds: Seq<char>,
    daytime: Seq<char>,
    nighttime: Seq<char>,
    day_seconds: Seq<char>,
) -> Seq<char> {
    "Countdown: "@ + hours + " in-game hours = "@ + seconds + "s real time at 1x (day is "@
        + daytime + "+"@ + nighttime + "h in "@ + day_seconds
        + "s). This is how far activation precedes the run end."@
}

/// What is said of the countdown's length: [`Note::Countdown`] with its numbers.
pub fn countdown_text(
    hours: &str,
    seconds: &str,
    daytime: &str,
    nighttime: &str,
    day_seconds: &str,
) -> (text: String)
    ensures
        text@ == countdown_line(hours@, seconds@, daytime@, nighttime@, day_seconds@),
{
    let mut text = owned("Countdown: ");
    text.append(hours);
    text.append(" in-game hours = ");
    text.append(seconds);
    text.append("s real time at 1x (day is ");
    text.append(daytime);
    text.append("+");
    text.append(nighttime);
    text.append("h in ");
    text.append(day_seconds);
    text.append("s). This is how far activation precedes the run end.");
    assert(text@ =~= countdown_line(hours@, seconds@, daytime@, nighttime@, day_seconds@));
    text
}

} // verus!
