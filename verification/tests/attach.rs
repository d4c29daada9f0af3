//! The splitter's search loop, driven with no game to find.
use timberborn_autosplitter::drive::drive;
use timberborn_autosplitter::memory::{EmptyMemory, FakeProcess, SparseMemory};
use timberborn_autosplitter::requirement::{requirement, CATALOGUE};
use timberborn_autosplitter::timer::TimerEvent;
use timberborn_autosplitter::world::World;

/// The notice comes after 15 detached ticks and then repeats. 20 ticks clears
/// the first without reaching the second.
const PAST_FIRST_NOTICE: usize = 20;

fn empty() -> World<EmptyMemory> {
    World::new()
}

#[test]
fn announces_itself_and_starts_looking() {
    let world = drive(empty(), 1);

    assert!(world.logged("Timberborn auto splitter."));
    assert_eq!(
        world.tick_rate,
        Some(1),
        "the search loop should drop to the detached rate rather than spin at 120/s"
    );
}

#[test]
fn says_so_when_there_is_no_game() {
    let world = drive(empty(), PAST_FIRST_NOTICE);

    assert!(
        world.logged("Still looking for Timberborn..."),
        "silence and failure looked identical before this message existed; log was {:#?}",
        world.log
    );
    assert_eq!(
        world.timer.run_control().len(),
        0,
        "there is nothing to time; events were {:#?}",
        world.timer.events
    );
}

/// A warning from a previous session survives a module reload, so the splitter
/// blanks the status variable on startup.
#[test]
fn clears_a_stale_status_on_startup() {
    let world = drive(empty(), 1);

    assert_eq!(
        world.timer.events,
        [TimerEvent::SetVariable {
            key: "Timberborn Autosplitter".into(),
            value: String::new(),
        }]
    );
}

#[test]
fn ignores_processes_that_are_not_the_game() {
    let world = empty()
        .with_process(FakeProcess::new(100, "firefox"))
        .with_process(FakeProcess::new(101, "steam"));
    let world = drive(world, PAST_FIRST_NOTICE);

    assert!(world.logged("Still looking for Timberborn..."));
}

/// Unity names its main thread "Unity Main Thread", so a Proton install reports
/// `Unity Main Thre` and never matches the executable name. Any Unity game would
/// match that, so the splitter must confirm Timberborn's own module first.
#[test]
fn refuses_an_ambiguous_name_without_the_game_module() {
    let world = empty().with_process(FakeProcess::new(200, "Unity Main Thre").with_module(
        "UnityPlayer.dll",
        0x1000,
        0x1000,
    ));
    let world = drive(world, PAST_FIRST_NOTICE);

    assert!(
        world.logged("Still looking for Timberborn..."),
        "a Unity process with no Timberborn.exe is some other game; log was {:#?}",
        world.log
    );
}

#[test]
fn accepts_an_ambiguous_name_that_has_the_game_module() {
    let world = World::new().with_process(
        FakeProcess::new(200, "Unity Main Thre")
            .with_module("Timberborn.exe", 0x140000000, 0x10000)
            .with_memory(SparseMemory::new()),
    );
    let world = drive(world, PAST_FIRST_NOTICE);

    assert!(world.logged("Attached to pid"), "log was {:#?}", world.log);
    assert!(!world.logged("Still looking for Timberborn..."));
}

#[test]
fn attaches_to_the_executable_name_directly() {
    let world = empty().with_process(FakeProcess::new(300, "Timberborn.x86_64"));
    let world = drive(world, PAST_FIRST_NOTICE);

    assert!(!world.logged("Still looking for Timberborn..."));
}

/// The eight wonder splits are on, the other route's are off: Smelter and
/// Smelter + Wood Workshop read the same building, so shipping both on would
/// give a runner who never opened the settings two splits out of one Smelter.
#[test]
fn registers_its_settings() {
    let world = drive(empty(), 1);

    let keys: Vec<&str> = world
        .registered_settings
        .iter()
        .map(|(key, _)| key.as_str())
        .collect();
    assert_eq!(
        keys,
        [
            "start",
            "forester",
            "gear_workshop",
            "tappers_shack",
            "advanced_science",
            "smelter_woodworkshop",
            "unlock_wonder",
            "congratulations_screen",
            "smelter",
            "bot_part_factory",
            "first_bot",
            "wellbeing_15",
        ]
    );
    let off: Vec<&str> = world
        .registered_settings
        .iter()
        .filter(|(_, default)| !*default)
        .map(|(key, _)| key.as_str())
        .collect();
    assert_eq!(
        off,
        ["smelter", "bot_part_factory", "first_bot", "wellbeing_15"]
    );
}

/// Every setting a recorded scenario forces is a setting the splitter actually
/// has: a renamed key would not fail anything else, and hours of playing would
/// go into a recording missing the thing it is of.
#[test]
fn every_setting_a_scenario_forces_is_one_the_splitter_registers() {
    let world = drive(empty(), 1);
    let registered: Vec<&str> = world
        .registered_settings
        .iter()
        .map(|(key, _)| key.as_str())
        .collect();

    for index in 0..CATALOGUE {
        let requirement = requirement(index);
        for (key, _) in &requirement.settings {
            assert!(
                registered.contains(key),
                "the {:?} scenario forces the setting {key:?}, which the splitter does not register. Registered: {registered:?}.",
                requirement.id
            );
        }
    }
}
