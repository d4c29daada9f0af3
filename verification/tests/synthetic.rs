//! The splitter driven against worlds built from a fixture.
use timberborn_autosplitter::drive::Drive;
use timberborn_autosplitter::fixture::game::{
    Entity, Live, Object, Scene, ENTITY_LIST, UNLOCKED_SET,
};
use timberborn_autosplitter::fixture::{ClassFacts, FieldFacts, Fixture, Sources};
use timberborn_autosplitter::metadata::Module;
use timberborn_autosplitter::memory::{
    read_u32, read_u64, FakeProcess, Memory, ModuleInfo, SparseMemory,
};
use timberborn_autosplitter::scenario::{advance_process, Scenario};
use timberborn_autosplitter::scan::{Scan, DEFAULT_BUDGET};
use timberborn_autosplitter::snapshot::manifest::Metadata;
use timberborn_autosplitter::snapshot::writer::Writer;
use timberborn_autosplitter::snapshot::Snapshot;
use timberborn_autosplitter::timer::TimerEvent;
use timberborn_autosplitter::world::World;

/// `InitializationState`, as the game numbers it.
const WAITING: i32 = 0;
const FINISHED: i32 = 5;

/// `BlockObjectState._state` for a building that is finished.
const BUILT: i32 = 1;

const COMPONENT_LIST: &str = timberborn_autosplitter::fixture::game::COMPONENT_LIST;

fn class(image: &str, name: &str, fields: &[(&str, u32)]) -> ClassFacts {
    ClassFacts {
        image: image.to_string(),
        namespace: image.to_string(),
        name: name.to_string(),
        fields: fields
            .iter()
            .map(|(name, offset)| FieldFacts {
                name: name.to_string(),
                requested: None,
                declared_type: "object".to_string(),
                is_static: false,
                offset: *offset,
            })
            .collect(),
    }
}

/// A game version whose fields all sit `shift` bytes further on.
fn fixture(version: &str, shift: u32) -> Fixture {
    let at = |offset: u32| offset + shift;
    let backing = |name: &str, requested: &str, offset: u32| FieldFacts {
        name: name.to_string(),
        requested: Some(requested.to_string()),
        declared_type: "int".to_string(),
        is_static: false,
        offset,
    };
    let mut clock = class(
        "Timberborn.TimeSystem",
        "DayNightCycle",
        &[
            ("_eventBus", at(0x10)),
            ("DayLengthInSeconds", at(0x20)),
            ("DaytimeLengthInHours", at(0x28)),
            ("NighttimeLengthInHours", at(0x30)),
        ],
    );
    clock.fields.push(backing("<DayNumber>k__BackingField", "DayNumber", at(0x18)));
    let mut countdown = class(
        "Timberborn.GameWonderCompletion",
        "WonderCompletionCountdownStarter",
        &[("_eventBus", at(0x10)), ("_unlockDay", at(0x18))],
    );
    countdown.fields.push(backing(
        "<CountdownFinished>k__BackingField",
        "CountdownFinished",
        at(0x20),
    ));
    let mut population = class("Timberborn.Population", "PopulationService", &[]);
    population.fields.push(backing(
        "<GlobalPopulationData>k__BackingField",
        "GlobalPopulationData",
        at(0x10),
    ));
    let mut data = class("Timberborn.Population", "PopulationData", &[]);
    data.fields.push(backing("<NumberOfAdults>k__BackingField", "NumberOfAdults", at(0x10)));
    data.fields.push(backing("<NumberOfChildren>k__BackingField", "NumberOfChildren", at(0x18)));
    let mut source = class("Timberborn.ErrorReporting", "WorldDataService", &[]);
    source.fields.push(FieldFacts {
        name: "<SourceFileName>k__BackingField".to_string(),
        requested: Some("SourceFileName".to_string()),
        declared_type: "string".to_string(),
        is_static: true,
        offset: 8,
    });
    Fixture {
        game_version: version.to_string(),
        build_id: None,
        sources: Sources { snapshot: "none".to_string(), managed: "none".to_string() },
        classes: vec![
            clock,
            class("Timberborn.SingletonSystem", "EventBus", &[]),
            class(
                "Timberborn.ScienceSystem",
                "BuildingUnlockingService",
                &[("_eventBus", at(0x10)), ("_unlockedBuildings", at(0x18))],
            ),
            countdown,
            class(
                "Timberborn.SingletonSystem",
                "SingletonRepository",
                &[("_singletonListener", at(0x10))],
            ),
            class("Timberborn.SingletonSystem", "SingletonListener", &[("_allSingletons", at(0x10))]),
            class("Timberborn.GameOver", "GameOverChecker", &[("_entityRegistry", at(0x10))]),
            class(
                "Timberborn.EntitySystem",
                "EntityRegistry",
                &[("_entitiesInInstantiationOrder", at(0x10))],
            ),
            class("Timberborn.BlockSystem", "BlockObjectState", &[("_state", at(0x10))]),
            class("Timberborn.BaseComponentSystem", "BaseComponent", &[("_componentCache", at(0x10))]),
            class(
                "Timberborn.BaseComponentSystem",
                "ComponentCache",
                &[("_components", at(0x10)), ("_name", at(0x18))],
            ),
            population,
            data,
            class(
                "Timberborn.SceneLoading",
                "SceneLoader",
                &[
                    ("_isLoading", at(0x20)),
                    ("_assetLoader", at(0x10)),
                    ("_sceneParameters", at(0x18)),
                ],
            ),
            class("Timberborn.AssetSystem", "AssetLoader", &[]),
            class(
                "Timberborn.GameSceneLoading",
                "GameSceneParameters",
                &[
                    ("<NewGameConfiguration>k__BackingField", at(0x10)),
                    ("<SaveReference>k__BackingField", at(0x18)),
                ],
            ),
            class("Timberborn.MainMenuSceneLoading", "MainMenuSceneParameters", &[]),
            class("Timberborn.MapEditorSceneLoading", "MapEditorSceneParameters", &[]),
            source,
            class(
                "Timberborn.GameStartup",
                "GameInitializer",
                &[("_eventBus", at(0x10)), ("_initializationState", at(0x18))],
            ),
            class("", ENTITY_LIST, &[("_items", at(0x10)), ("_size", at(0x18))]),
            class("", COMPONENT_LIST, &[("_items", at(0x10)), ("_size", at(0x18))]),
            class(
                "",
                UNLOCKED_SET,
                &[("_slots", at(0x18)), ("_count", at(0x20)), ("_lastIndex", at(0x24))],
            ),
        ],
    }
}

/// Two game versions, laid out differently: the splitter's claim is that it
/// resolves names at runtime and so survives a game update.
fn fixtures() -> Vec<Fixture> {
    vec![fixture("1.0.13.1-aaaaaaa-sw", 0), fixture("1.1.2.4-52e959e-sw", 0x10)]
}

/// Runs the splitter, with `between` called after every tick.
fn drive_with<M: Memory>(
    world: World<M>,
    ticks: usize,
    mut between: impl FnMut(usize, &mut World<M>),
) -> World<M> {
    let mut drive = Drive::new(world);
    for tick in 0..ticks {
        drive.tick();
        between(tick, &mut drive.world);
    }
    drive.world
}

fn drive<M: Memory>(world: World<M>, ticks: usize) -> World<M> {
    drive_with(world, ticks, |_, _| {})
}

fn require<M: Memory>(world: &World<M>, version: &str, needle: &str) {
    assert!(
        world.logged(needle),
        "{version}: expected a log line containing {needle:?}; log was {:#?}",
        world.log
    );
}

fn refuse<M: Memory>(world: &World<M>, version: &str, needle: &str) {
    assert!(
        !world.logged(needle),
        "{version}: a log line contains {needle:?}; log was {:#?}",
        world.log
    );
}

/// Everything the timer was told, ignoring the variables set alongside.
fn controlling<M: Memory>(world: &World<M>) -> Vec<&TimerEvent> {
    world
        .timer
        .events
        .iter()
        .filter(|event| !matches!(event, TimerEvent::SetVariable { .. }))
        .collect()
}

/// Whether a log line appears at or after `from`.
fn logged_after<M: Memory>(world: &World<M>, from: usize, needle: &str) -> bool {
    world.log[from.min(world.log.len())..]
        .iter()
        .any(|line| line.contains(needle))
}

fn close<M: Memory>(world: &mut World<M>, pid: u64) {
    for process in world.processes.iter_mut() {
        if process.pid == pid {
            process.open = false;
        }
    }
}

fn memory_of(world: &mut World<SparseMemory>, pid: u64) -> &mut SparseMemory {
    &mut world
        .processes
        .iter_mut()
        .find(|process| process.pid == pid)
        .expect("the process")
        .memory
}

/// The services every loaded game has.
struct Services {
    clock: Object,
    initializer: Object,
    countdown: Object,
}

/// Places the services of a loaded game, whose buildings and unlocked names are
/// given.
fn services(scene: &mut Scene, state: i32, entities: u64, unlocked: u64) -> Services {
    let clock = scene.service("Timberborn.TimeSystem", "DayNightCycle");
    scene.set_i32(&clock, "DayNumber", 1);
    let unlocking = scene.service("Timberborn.ScienceSystem", "BuildingUnlockingService");
    scene.set_ptr(&unlocking, "_unlockedBuildings", unlocked);
    let countdown = scene.service(
        "Timberborn.GameWonderCompletion",
        "WonderCompletionCountdownStarter",
    );
    let registry = scene.object("Timberborn.EntitySystem", "EntityRegistry");
    scene.set_ptr(&registry, "_entitiesInInstantiationOrder", entities);
    let game_over = scene.object("Timberborn.GameOver", "GameOverChecker");
    scene.set_ptr(&game_over, "_entityRegistry", registry.address);
    scene.register(&game_over);
    let population = scene.object("Timberborn.Population", "PopulationService");
    scene.register(&population);
    let data = scene.object("Timberborn.Population", "PopulationData");
    scene.set_ptr(&population, "GlobalPopulationData", data.address);
    let initializer = scene.service("Timberborn.GameStartup", "GameInitializer");
    scene.set_i32(&initializer, "_initializationState", state);
    Services { clock, initializer, countdown }
}

fn core_services(scene: &mut Scene, state: i32) -> Services {
    let entities = scene.list(ENTITY_LIST, &[]);
    let unlocked = scene.hash_set(UNLOCKED_SET, &vec![]);
    services(scene, state, entities, unlocked)
}

/// A loaded game with the services the splitter looks for, and nothing
/// happening: the mid-run attach case.
fn fill_in_progress(scene: &mut Scene, day: i32) {
    let services = core_services(scene, FINISHED);
    scene.set_i32(&services.clock, "DayNumber", day);
    let loader = scene.scene_loader(false, true);
    scene.register(&loader);
}

fn game_in_progress(fixture: &Fixture, day: i32) -> World<SparseMemory> {
    let mut scene = Scene::new(fixture);
    fill_in_progress(&mut scene, day);
    World::new().with_process(scene.finish())
}

const TICKS: usize = 400;

#[test]
fn synthetic_run_finds_the_games_singleton_container_and_services() {
    for fixture in fixtures() {
        let version = fixture.game_version.as_str();
        let world = drive(game_in_progress(&fixture, 5), TICKS);
        require(&world, version, "Attached to the Mono runtime.");
        require(&world, version, "Watching scene loads at");
        require(&world, version, "The game's singleton container is at");
        require(&world, version, "Found DayNightCycle at");
    }
}

/// Attaching to a game already in progress must not start a timer.
#[test]
fn refuses_to_start_a_timer_for_a_game_already_in_progress() {
    for fixture in fixtures() {
        let version = fixture.game_version.as_str();
        let world = drive(game_in_progress(&fixture, 5), TICKS);
        require(&world, version, "Not starting the timer");
        assert_eq!(world.timer.splits(), 0, "{version}: a still world produced a split");
    }
}

#[test]
fn synthetic_run_every_name_the_design_depends_on_resolves() {
    for fixture in fixtures() {
        let version = fixture.game_version.as_str();
        let world = drive(game_in_progress(&fixture, 5), TICKS);
        require(&world, version, "probe: ALL RESOLVED");
        refuse(&world, version, "MISSING");
    }
}

/// The runtime's reference table is found, and found by content.
#[test]
fn finds_the_reference_table() {
    for fixture in fixtures() {
        let version = fixture.game_version.as_str();
        let world = drive(game_in_progress(&fixture, 5), TICKS);
        require(&world, version, "[table] found at");
        require(&world, version, "object headers in it");
    }
}

/// Having found the table, the splitter uses it.
#[test]
fn resolves_the_container_without_sweeping_for_it() {
    for fixture in fixtures() {
        let version = fixture.game_version.as_str();
        let world = drive(game_in_progress(&fixture, 5), TICKS);
        require(&world, version, "[table] SingletonRepository:");
        refuse(&world, version, "[scan] SingletonRepository starting");
    }
}

/// An object the table does not know about is still found, by sweeping.
#[test]
fn sweeps_for_what_the_table_does_not_hold() {
    for fixture in fixtures() {
        let version = fixture.game_version.as_str();
        let mut scene = Scene::new(&fixture).container_unreferenced();
        fill_in_progress(&mut scene, 5);
        let world = drive(World::new().with_process(scene.finish()), TICKS);
        // The table was found and asked, and had nothing.
        require(&world, version, "[table] found at");
        require(&world, version, "[table] SingletonRepository: 0 live instances");
        // And the sweep behind it got there anyway.
        require(&world, version, "[scan] SingletonRepository starting");
        require(&world, version, "The game's singleton container is at");
    }
}

/// With no reference table at all, everything still works, by sweeping.
#[test]
fn works_with_no_reference_table_at_all() {
    for fixture in fixtures() {
        let version = fixture.game_version.as_str();
        let mut scene = Scene::new(&fixture).without_reference_table();
        fill_in_progress(&mut scene, 5);
        let world = drive(World::new().with_process(scene.finish()), TICKS);
        require(&world, version, "no candidate range was one");
        require(&world, version, "full sweep -- no reference table found yet");
        require(&world, version, "The game's singleton container is at");
        require(&world, version, "DayNumber = 5");
    }
}

/// Looking for the table is itself a sweep, so a version where it cannot be
/// found must not go on looking on the menu's one-second loop.
#[test]
fn gives_up_looking_for_a_table_rather_than_sweeping_forever() {
    const MENU_TICKS: usize = 1200;
    for fixture in fixtures() {
        let version = fixture.game_version.as_str();
        let mut scene = Scene::new(&fixture).without_reference_table();
        let services = core_services(&mut scene, FINISHED);
        scene.set_i32(&services.clock, "DayNumber", 1);
        let loader = scene.scene_loader_for(
            false,
            "Timberborn.MainMenuSceneLoading",
            "MainMenuSceneParameters",
        );
        scene.register(&loader);
        let world = drive(World::new().with_process(scene.finish()), MENU_TICKS);

        let looked = world
            .log
            .iter()
            .filter(|line| line.contains("[table] looking for"))
            .count();
        assert_eq!(
            looked, 3,
            "{version}: looked for the table {looked} times in {MENU_TICKS} ticks; log was {:#?}",
            world.log
        );
    }
}

/// Long enough for the splitter to attach, resolve Mono, sweep for the scene
/// loader and read the container.
const SETTLE: usize = 400;

/// The splitter says it is still looking after fifteen detached ticks.
const SEARCH_NOTICE_TICKS: usize = 15;

fn process_in_progress(fixture: &Fixture, pid: u64) -> FakeProcess<SparseMemory> {
    let mut scene = Scene::new(fixture);
    core_services(&mut scene, FINISHED);
    let loader = scene.scene_loader(false, true);
    scene.register(&loader);
    let mut process = scene.finish();
    process.pid = pid;
    process
}

/// The handles a loading game is brought up through.
struct Loading<'a> {
    live: Live<'a>,
    loader: Object,
    initializer: Object,
}

fn game_loading(fixture: &Fixture, pid: u64) -> (FakeProcess<SparseMemory>, Loading<'_>) {
    let mut scene = Scene::new(fixture);
    let services = core_services(&mut scene, WAITING);
    let loader = scene.scene_loader(true, true);
    scene.register(&loader);
    let (mut process, live) = scene.finish_live();
    process.pid = pid;
    (process, Loading { live, loader, initializer: services.initializer })
}

/// Started before the game: the splitter waits, says so, and touches nothing.
#[test]
fn waits_for_a_game_that_is_not_running_yet() {
    let world = drive(World::<SparseMemory>::new(), 60);
    require(&world, "no game", "Still looking for Timberborn...");
    assert!(controlling(&world).is_empty());
}

/// The game starts after the splitter does, and is picked up.
#[test]
fn attaches_to_a_game_that_starts_later() {
    const APPEARS: usize = 30;
    for fixture in fixtures() {
        let version = fixture.game_version.as_str();
        let mut process = Some(process_in_progress(&fixture, 900));
        let world = drive_with(World::new(), APPEARS + SETTLE, |tick, world| {
            if tick == APPEARS {
                world.add_process(process.take().expect("added once"));
            }
        });
        require(&world, version, "Attached to the Mono runtime.");
        require(&world, version, "The game's singleton container is at");
    }
}

/// The game closes under the splitter, which notices and goes back to looking.
#[test]
fn notices_the_game_closing_and_looks_again() {
    const CLOSES: usize = SETTLE;
    for fixture in fixtures() {
        let version = fixture.game_version.as_str();
        let mut closed_at = None;
        let world = drive_with(
            World::new().with_process(process_in_progress(&fixture, 900)),
            CLOSES + SEARCH_NOTICE_TICKS * 4,
            |tick, world| {
                if tick == CLOSES {
                    closed_at = Some(world.log.len());
                    close(world, 900);
                }
            },
        );
        let closed_at = closed_at.expect("the process was closed");
        require(&world, version, "The game's singleton container is at");
        assert!(
            logged_after(&world, closed_at, "Still looking for Timberborn..."),
            "{version}: the splitter did not go back to looking after the game closed; log was {:#?}",
            world.log
        );
    }
}

/// A second game in the same session. The first game is already in progress, so
/// nothing is timed; the second is a fresh load, so it is.
#[test]
fn times_the_second_game_of_a_session() {
    const CLOSES: usize = SETTLE;
    const STARTS: usize = CLOSES + 20;
    const LOAD_ENDS: usize = STARTS + SETTLE;
    const OVERLAY: usize = LOAD_ENDS + 60;
    for fixture in fixtures() {
        let version = fixture.game_version.as_str();
        let first = process_in_progress(&fixture, 900);
        let (second, loading) = game_loading(&fixture, 901);
        let mut second = Some(second);
        let world = drive_with(
            World::new().with_process(first),
            OVERLAY + 120,
            |tick, world| match tick {
                CLOSES => close(world, 900),
                STARTS => world.add_process(second.take().expect("added once")),
                LOAD_ENDS => {
                    loading.live.set_u8(memory_of(world, 901), &loading.loader, "_isLoading", 0)
                }
                OVERLAY => loading.live.set_i32(
                    memory_of(world, 901),
                    &loading.initializer,
                    "_initializationState",
                    FINISHED,
                ),
                _ => {}
            },
        );
        assert_eq!(
            controlling(&world)
                .iter()
                .filter(|event| matches!(event, TimerEvent::Start))
                .count(),
            1,
            "{version}: the second game of the session should start the timer exactly once; the timer saw {:?} and the log was {:#?}",
            controlling(&world),
            world.log
        );
        require(&world, version, "run start bound during the load");
    }
}

/// A process on its way out stays attachable for several seconds under Wine,
/// with nothing readable in it. The splitter must not be wedged by one.
#[test]
fn a_dying_process_neither_splits_nor_wedges() {
    const DIES: usize = 40;
    const GONE: usize = DIES + 30;
    const REAL_GAME: usize = GONE + 10;
    for fixture in fixtures() {
        let version = fixture.game_version.as_str();
        let mut real = Some(process_in_progress(&fixture, 901));
        let mut dead_at = None;
        let world = drive_with(
            World::new().with_process(process_in_progress(&fixture, 900)),
            REAL_GAME + SETTLE,
            |tick, world| match tick {
                DIES => {
                    *memory_of(world, 900) = SparseMemory::new();
                    dead_at = Some(world.log.len());
                }
                GONE => close(world, 900),
                REAL_GAME => world.add_process(real.take().expect("added once")),
                _ => {}
            },
        );
        let dead_at = dead_at.expect("the process died");
        assert!(
            controlling(&world).is_empty(),
            "{version}: the timer was driven off a dying process: {:?}",
            controlling(&world)
        );
        assert!(
            logged_after(&world, dead_at, "The game's singleton container is at"),
            "{version}: the splitter never recovered to find the real game; log was {:#?}",
            world.log
        );
    }
}

/// The Folktails wonder, by template name.
const WONDER: &str = "EarthRecultivator.Folktails";

/// The six buildings that drive the five building splits, in the order the
/// category builds them. The last two share one split.
const BUILDINGS: &[&str] = &[
    "Forester.Folktails",
    "GearWorkshop.Folktails",
    "TappersShack.Folktails",
    "Observatory.Folktails",
    "Smelter.Folktails",
    "WoodWorkshop.Folktails",
];

/// Ticks between one thing happening and the next.
const STEP: usize = 60;

/// Everything a scenario reaches back into once the world is running.
struct Run<'a> {
    live: Live<'a>,
    loader: Object,
    initializer: Object,
    countdown: Object,
    clock: Object,
    entities: u64,
    unlocked: u64,
    /// Every entity, placed but not yet revealed.
    placed: Vec<Entity>,
}

/// Builds the world a wonder run happens in, with nothing yet done in it.
fn wonder_run(fixture: &Fixture) -> (World<SparseMemory>, Run<'_>) {
    let mut scene = Scene::new(fixture);
    let placed: Vec<Entity> = BUILDINGS
        .iter()
        .map(|template| scene.entity(template, 0))
        .collect();
    let addresses: Vec<u64> = placed.iter().map(|entity| entity.component.address).collect();
    let entities = scene.list(ENTITY_LIST, &addresses);
    let unlocked = scene.hash_set(UNLOCKED_SET, &vec![WONDER]);
    let services = services(&mut scene, WAITING, entities, unlocked);
    // Plausible day lengths: nothing splits on them.
    scene.set_i32(&services.clock, "DayLengthInSeconds", 900f32.to_bits() as i32);
    scene.set_i32(&services.clock, "DaytimeLengthInHours", 16f32.to_bits() as i32);
    scene.set_i32(&services.clock, "NighttimeLengthInHours", 8f32.to_bits() as i32);
    // A new game, and the load still running: the state the splitter has to bind
    // the run start in, and the only window it gets.
    let loader = scene.scene_loader(true, true);
    scene.register(&loader);
    let (mut process, live) = scene.finish_live();
    // Nothing has happened yet: both collections were built full, because memory
    // cannot be added to once the process exists, so the run begins by emptying
    // them.
    live.set_instance_i32(&mut process.memory, ENTITY_LIST, entities, "_size", 0);
    live.set_instance_i32(&mut process.memory, UNLOCKED_SET, unlocked, "_count", 0);
    live.set_instance_i32(&mut process.memory, UNLOCKED_SET, unlocked, "_lastIndex", 0);
    (
        World::new().with_process(process),
        Run {
            live,
            loader,
            initializer: services.initializer,
            countdown: services.countdown,
            clock: services.clock,
            entities,
            unlocked,
            placed,
        },
    )
}

impl Run<'_> {
    /// What happens, in order: the load ends, the overlay appears, each building
    /// is placed and finished, the wonder is unlocked and activated, and the
    /// Congratulations screen appears.
    fn step(&self, step: usize, memory: &mut SparseMemory) {
        match step {
            0 => self.live.set_u8(memory, &self.loader, "_isLoading", 0),
            1 => self.live.set_i32(memory, &self.initializer, "_initializationState", FINISHED),
            2..=7 => {
                let index = step - 2;
                self.live.set_instance_i32(
                    memory,
                    ENTITY_LIST,
                    self.entities,
                    "_size",
                    index as i32 + 1,
                );
                self.live.set_i32(memory, &self.placed[index].block_state, "_state", BUILT);
            }
            8 => {
                self.live.set_instance_i32(memory, UNLOCKED_SET, self.unlocked, "_count", 1);
                self.live.set_instance_i32(memory, UNLOCKED_SET, self.unlocked, "_lastIndex", 1);
            }
            9 => {
                self.live.set_i32(memory, &self.clock, "DayNumber", 40);
                self.live.set_i32(memory, &self.countdown, "_unlockDay", 40);
            }
            _ => self.live.set_i32(memory, &self.countdown, "CountdownFinished", 1),
        }
    }
}

/// How many things happen in a run.
const STEPS: usize = 11;

/// Drives a run, doing each step in turn with ticks in between, and gives back
/// the world and how many splits had fired by the time each step was applied.
fn play(fixture: &Fixture) -> (World<SparseMemory>, Vec<usize>) {
    let (world, run) = wonder_run(fixture);
    // Modelled on a real load, which takes many hundreds of ticks.
    const LEAD_IN: usize = 800;
    let ticks = LEAD_IN + STEPS * STEP + STEP;
    let mut next = LEAD_IN;
    let mut step = 0;
    let mut splits = Vec::new();
    let world = drive_with(world, ticks, |tick, world| {
        if tick >= next && step < STEPS {
            splits.push(world.timer.splits());
            run.step(step, &mut world.processes[0].memory);
            step += 1;
            next = tick + STEP;
        }
    });
    (world, splits)
}

/// The category: a start and seven splits, in that order and no others.
#[test]
fn the_whole_category_fires() {
    for fixture in fixtures() {
        let (world, _) = play(&fixture);
        let mut expected = vec![TimerEvent::Start];
        for _ in 0..7 {
            expected.push(TimerEvent::Split);
        }
        let actual: Vec<TimerEvent> = controlling(&world).into_iter().cloned().collect();
        assert_eq!(
            actual, expected,
            "{}: the timer was driven wrongly; log was {:#?}",
            fixture.game_version, world.log
        );
    }
}

/// The run start is bound while the scene is still loading.
#[test]
fn the_run_start_is_bound_during_the_load() {
    for fixture in fixtures() {
        let (world, _) = play(&fixture);
        require(&world, &fixture.game_version, "run start bound during the load");
    }
}

/// Each split fires for the building it is for, and in the category's order.
#[test]
fn the_splits_are_for_the_right_things_in_order() {
    for fixture in fixtures() {
        let (world, _) = play(&fixture);
        let reasons: Vec<&str> = world
            .log
            .iter()
            .filter_map(|line| {
                line.strip_prefix("Split: ")
                    .or_else(|| line.strip_prefix("Run end: "))
            })
            .collect();
        assert_eq!(
            reasons,
            [
                "Forester finished.",
                "Gear Workshop finished.",
                "Tapper's Shack finished.",
                "Observatory / Numbercruncher finished.",
                "Smelter + Wood Workshop finished.",
                "wonder unlocked.",
                "Congratulations screen. Splitting.",
            ],
            "{}: log was {:#?}",
            fixture.game_version,
            world.log
        );
    }
}

/// Activating the wonder is not the end of the run.
#[test]
fn activating_the_wonder_does_not_split() {
    const COUNTDOWN_FINISHES: usize = 10;
    for fixture in fixtures() {
        let (world, splits) = play(&fixture);
        assert_eq!(
            splits.get(COUNTDOWN_FINISHES).copied(),
            Some(6),
            "{}: steps were {splits:?}; log was {:#?}",
            fixture.game_version,
            world.log
        );
        assert_eq!(world.timer.splits(), 7, "{}: the run end did not split", fixture.game_version);
    }
}

/// A game in which everything has already happened, captured and served back:
/// every tracked building finished, the wonder unlocked and launched, the
/// Congratulations screen already shown.
fn finished_run(fixture: &Fixture) -> World<Snapshot> {
    let mut scene = Scene::new(fixture);
    let addresses: Vec<u64> = BUILDINGS
        .iter()
        .map(|template| scene.entity(template, BUILT).component.address)
        .collect();
    let entities = scene.list(ENTITY_LIST, &addresses);
    let unlocked = scene.hash_set(UNLOCKED_SET, &vec![WONDER]);
    let services = services(&mut scene, FINISHED, entities, unlocked);
    scene.set_i32(&services.clock, "DayNumber", 40);
    scene.set_i32(&services.countdown, "_unlockDay", 40);
    scene.set_i32(&services.countdown, "CountdownFinished", 1);
    let loader = scene.scene_loader(false, true);
    scene.register(&loader);
    let process = scene.finish();

    let mut metadata = Metadata::default();
    metadata.game_version = fixture.game_version.clone();
    metadata.process_name = process.name.clone();
    metadata.process_path = process.path.clone();
    metadata.pid = process.pid as u32;
    let mut writer = Writer::create(metadata);
    let mut blob = Vec::new();
    for range in &process.ranges {
        let mut bytes = vec![0u8; range.size as usize];
        assert!(process.memory.read(range.address, &mut bytes));
        blob.extend(writer.add_range(*range, Some(&bytes)));
    }
    writer.add_modules(process.modules);
    let files = writer.finish();
    let snapshot = match Snapshot::open("finished", &files.manifest, &files.index, blob, None) {
        Ok(snapshot) => snapshot,
        Err(refused) => panic!("{}", refused.text("finished", "")),
    };
    let captured = snapshot.process().with_runtime(process.runtime.expect("a runtime"));
    drive(World::new().with_process(captured), 2000)
}

#[test]
fn snapshot_run_every_name_the_design_depends_on_resolves() {
    for fixture in fixtures() {
        let world = finished_run(&fixture);
        require(&world, &fixture.game_version, "probe: ALL RESOLVED");
        refuse(&world, &fixture.game_version, "MISSING");
    }
}

#[test]
fn snapshot_run_finds_the_games_singleton_container_and_services() {
    for fixture in fixtures() {
        let version = fixture.game_version.as_str();
        let world = finished_run(&fixture);
        require(&world, version, "The game's singleton container is at");
        require(&world, version, "Found DayNightCycle at");
        require(&world, version, "Watching wonder completion at");
        require(&world, version, "Watching building unlocks at");
    }
}

#[test]
fn refuses_to_start_a_timer_for_a_run_already_over() {
    for fixture in fixtures() {
        let version = fixture.game_version.as_str();
        let world = finished_run(&fixture);
        require(&world, version, "Not starting the timer");
        require(&world, version, "Game already in progress");
        assert!(
            controlling(&world).is_empty(),
            "{version}: nothing should reach the timer; got {:#?}",
            controlling(&world)
        );
    }
}

#[test]
fn tells_the_runner_why_through_the_status_variable() {
    for fixture in fixtures() {
        let world = finished_run(&fixture);
        let said = world.timer.events.iter().any(|event| {
            matches!(event, TimerEvent::SetVariable { key, value }
                if key == "Timberborn Autosplitter" && value.contains("already in progress"))
        });
        assert!(
            said,
            "{}: timer events were {:#?}",
            fixture.game_version, world.timer.events
        );
    }
}

/// State from before the splitter attached has to be reconstructed, or the first
/// poll would fire every split at once.
#[test]
fn reconstructs_what_it_missed() {
    for fixture in fixtures() {
        let version = fixture.game_version.as_str();
        let world = finished_run(&fixture);
        require(&world, version, "Wonder already unlocked in this save: true");
        require(&world, version, "Already finished in this save: true");
        let listed = world
            .log
            .iter()
            .find(|line| line.contains("Already finished in this save: Forester"))
            .unwrap_or_else(|| panic!("{version}: log was {:#?}", world.log));
        for building in [
            "Forester",
            "Gear Workshop",
            "Tapper's Shack",
            "Observatory / Numbercruncher",
            "Smelter",
            "Wood Workshop",
        ] {
            assert!(listed.contains(building), "{version}: {building:?} missing from {listed:?}");
        }
    }
}

#[test]
fn walks_the_global_entity_registry() {
    for fixture in fixtures() {
        let version = fixture.game_version.as_str();
        let world = finished_run(&fixture);
        require(&world, version, "[entities] opening walk starting over");
        require(&world, version, "entities for 6 tracked buildings");
    }
}

#[test]
fn finds_the_reference_table_and_searches_it() {
    for fixture in fixtures() {
        let version = fixture.game_version.as_str();
        let world = finished_run(&fixture);
        require(&world, version, "[table] found at");
        require(&world, version, "[table] SingletonRepository:");
    }
}

#[test]
fn the_container_does_not_cost_a_sweep() {
    for fixture in fixtures() {
        let world = finished_run(&fixture);
        refuse(&world, &fixture.game_version, "[scan] SingletonRepository starting");
    }
}

#[test]
fn the_capture_has_no_holes() {
    for fixture in fixtures() {
        let version = fixture.game_version.as_str();
        let world = finished_run(&fixture);
        let sweeps: Vec<&String> = world
            .log
            .iter()
            .filter(|line| line.contains("chunk read failures"))
            .collect();
        assert!(!sweeps.is_empty(), "{version}: no sweep reported; log was {:#?}", world.log);
        for sweep in sweeps {
            assert!(
                sweep.contains("0 chunk read failures, 0 KiB unreadable"),
                "{version}: the capture has holes in it: {sweep:?}"
            );
        }
    }
}

#[test]
fn reads_collections_by_name_rather_than_by_the_known_layout() {
    for fixture in fixtures() {
        let world = finished_run(&fixture);
        refuse(&world, &fixture.game_version, "[collections]");
    }
}

/// A synthetic process as it is followed from outside: through its images to the
/// list of assemblies, and from there to a class and its fields.
struct Walk<'a> {
    memory: &'a SparseMemory,
    root: u64,
}

impl<'a> Walk<'a> {
    fn word(&self, at: u64) -> u64 {
        read_u64(self.memory, at).unwrap_or_else(|| panic!("nothing at {at:#x}"))
    }

    fn half(&self, at: u64) -> u32 {
        read_u32(self.memory, at).unwrap_or_else(|| panic!("nothing at {at:#x}"))
    }

    fn text(&self, at: u64) -> String {
        let mut text = Vec::new();
        let mut byte = [0u8];
        loop {
            assert!(self.memory.read(at + text.len() as u64, &mut byte));
            if byte[0] == 0 {
                return String::from_utf8(text).expect("a name");
            }
            text.push(byte[0]);
        }
    }

    /// Finds the list through the instruction that the runtime loads it by.
    fn attach(process: &'a FakeProcess<SparseMemory>) -> Self {
        let mut walk = Walk { memory: &process.memory, root: 0 };
        let mono = process
            .modules
            .iter()
            .find(|module| module.name == "mono-2.0-bdwgc.dll")
            .expect("the runtime")
            .address;
        let header = mono + u64::from(walk.half(mono + 0x3C));
        let exports = mono + u64::from(walk.half(header + 24 + 112));
        let name = mono + u64::from(walk.half(mono + u64::from(walk.half(exports + 0x20))));
        assert_eq!(walk.text(name), "mono_assembly_foreach");
        let code = mono + u64::from(walk.half(mono + u64::from(walk.half(exports + 0x1C))));
        assert_eq!(walk.half(code) & 0xFF_FFFF, 0x0D_8B48);
        walk.root = code + 7 + u64::from(walk.half(code + 3));
        walk
    }

    fn version(&self, process: &FakeProcess<SparseMemory>) -> u32 {
        let unity = process
            .modules
            .iter()
            .find(|module| module.name == "UnityPlayer.dll")
            .expect("Unity")
            .address;
        let header = unity + u64::from(self.half(unity + 0x3C));
        let resources = unity + u64::from(self.half(header + 24 + 112 + 16));
        let mut at = resources;
        loop {
            let entry = self.half(at + 0x14);
            at = resources + u64::from(entry & 0x7FFF_FFFF);
            if entry & 0x8000_0000 == 0 {
                break;
            }
        }
        let info = unity + u64::from(self.half(at));
        assert_eq!(self.half(info + 0x28), 0xFEEF_04BD);
        self.half(info + 0x30) >> 16
    }

    fn image(&self, name: &str) -> Option<u64> {
        let mut node = self.word(self.root);
        while node != 0 {
            let assembly = self.word(node);
            if self.text(self.word(assembly + 0x10)) == name {
                return Some(self.word(assembly + 0x60));
            }
            node = self.word(node + 8);
        }
        None
    }

    fn class(&self, image: &str, name: &str) -> Option<u64> {
        let image = self.image(image)?;
        let buckets = self.word(image + 0x4F0);
        for bucket in 0..self.half(image + 0x4E8) {
            let class = self.word(buckets + 8 * u64::from(bucket));
            if self.text(self.word(class + 0x48)) == name {
                assert_eq!(self.word(class + 0x40), image);
                assert_eq!(self.word(class + 0x30), 0, "nothing is inherited");
                assert_eq!(self.word(class + 0x108), 0, "alone in its bucket");
                return Some(class);
            }
        }
        None
    }

    fn offset(&self, class: u64, field: &str) -> Option<u32> {
        let fields = self.word(class + 0x98);
        for index in 0..self.half(class + 0x100) {
            let at = fields + 0x20 * u64::from(index);
            if self.text(self.word(at + 8)) == field {
                return Some(self.half(at + 0x18));
            }
        }
        None
    }

    fn vtable(&self, class: u64) -> u64 {
        self.word(self.word(class + 0xD0) + 8)
    }

    fn static_table(&self, class: u64) -> u64 {
        let slots = u64::from(self.half(class + 0x5C));
        self.word(self.vtable(class) + 0x48 + 8 * slots)
    }
}

fn for_each_fixture(check: impl Fn(&Fixture, &Walk, &Module)) {
    for fixture in fixtures() {
        let process = fixture.builder().finish();
        let module = process.runtime.as_ref().expect("a runtime");
        check(&fixture, &Walk::attach(&process), module);
    }
}

/// From the container to everything that was registered, in order.
#[test]
fn the_container_leads_to_every_singleton() {
    for fixture in fixtures() {
        let own = "Timberborn.SingletonSystem";
        let mut scene = Scene::new(&fixture);
        let placed = [
            scene.object("Timberborn.TimeSystem", "DayNightCycle"),
            scene.object("Timberborn.Population", "PopulationService"),
        ];
        for object in &placed {
            scene.register(object);
        }
        let process = scene.finish();
        let walk = Walk::attach(&process);
        let repository = walk.class(own, "SingletonRepository").expect("the repository");
        let listener = walk.class(own, "SingletonListener").expect("the listener");
        let held = walk.offset(repository, "_singletonListener").expect("its listener");
        let all = walk.offset(listener, "_allSingletons").expect("its singletons");
        let mut scan = Scan::new(&process.ranges, walk.vtable(repository));
        while !scan.step(&process.memory, DEFAULT_BUDGET) {}
        let at = scan
            .found
            .iter()
            .copied()
            .find(|at| *at != walk.word(repository + 0xD0) + 8)
            .expect("a repository");
        let heard = walk.word(at + u64::from(held));
        assert_eq!(walk.word(heard), walk.vtable(listener));
        let array = walk.word(heard + u64::from(all));
        let length = walk.word(array + 0x18);
        let held: Vec<u64> = (0..length).map(|i| walk.word(array + 0x20 + 8 * i)).collect();
        let registered: Vec<u64> = placed.iter().map(|object| object.address).collect();
        let bus = walk.class(own, "EventBus").expect("the event bus");
        assert_eq!(walk.word(held[0]), walk.vtable(bus), "which every scene registers first");
        assert_eq!(held[1..], registered, "{}", fixture.game_version);
    }
}

/// Unity 6, which is version 3 of the runtime's layout, with 64-bit pointers.
#[test]
fn asr_attaches_to_the_synthetic_mono() {
    for fixture in fixtures() {
        let process = fixture.builder().finish();
        let walk = Walk::attach(&process);
        assert_eq!(walk.version(&process), 6000, "{}", fixture.game_version);
        assert_eq!(process.runtime.as_ref().expect("a runtime").runtime, "Mono V3, 64-bit");
    }
}

#[test]
fn every_class_in_the_fixture_resolves_by_name() {
    for_each_fixture(|fixture, walk, module| {
        for class in fixture.classes.iter().filter(|class| !class.image.is_empty()) {
            assert!(module.contains_image(&class.image), "no image {}", class.image);
            let resolved = module.get_class(&class.image, &class.name).unwrap_or_else(|| {
                panic!("{}: {} has no class {}", fixture.game_version, class.image, class.name)
            });
            let laid = walk.class(&class.image, &class.name).expect("the class");
            assert_eq!(resolved.vtable, Some(walk.vtable(laid)));
            assert_eq!(walk.text(walk.word(laid + 0x50)), class.namespace);
        }
    });
}

#[test]
fn every_field_resolves_to_the_offset_the_fixture_records() {
    for_each_fixture(|fixture, walk, module| {
        for class in fixture.classes.iter().filter(|class| !class.image.is_empty()) {
            let resolved = module.get_class(&class.image, &class.name).expect("the class");
            let laid = walk.class(&class.image, &class.name).expect("the class");
            for field in &class.fields {
                let asked = field.requested_name();
                assert_eq!(
                    resolved.get_field_offset(asked),
                    Some(field.offset),
                    "{}: {}/{}.{asked}",
                    fixture.game_version,
                    class.image,
                    class.name,
                );
                assert_eq!(walk.offset(laid, &field.name), Some(field.offset));
            }
        }
    });
}

#[test]
fn an_object_on_the_heap_knows_its_own_class() {
    for fixture in fixtures() {
        let mut builder = fixture.builder();
        let expected = builder.expect_class("Timberborn.TimeSystem", "DayNightCycle");
        let object = builder.new_object("Timberborn.TimeSystem", "DayNightCycle", 0);
        let process = builder.finish();
        let walk = Walk::attach(&process);
        assert_eq!(walk.word(walk.word(object)), expected.class);
        let module = process.runtime.as_ref().expect("a runtime");
        let class = module.of_object(&process.memory, object).unwrap_or_else(|| {
            panic!(
                "{}: an object at {object:#x} did not resolve to a class",
                fixture.game_version
            )
        });
        assert_eq!(
            class.vtable,
            Some(expected.vtable),
            "{}: the object resolved to the wrong class",
            fixture.game_version
        );
        assert_eq!(
            class.get_field_offset("DayNumber"),
            fixture
                .class("Timberborn.TimeSystem", "DayNightCycle")
                .and_then(|c| c.field("DayNumber"))
                .map(|f| f.offset),
            "{}: reached the class but not its fields",
            fixture.game_version
        );
    }
}

#[test]
fn a_static_field_is_read_out_of_the_static_table() {
    const IMAGE: &str = "Timberborn.ErrorReporting";
    const CLASS: &str = "WorldDataService";
    const FIELD: &str = "SourceFileName";
    const SENTINEL: u64 = 0xABCD_0123_4567_8000;
    for fixture in fixtures() {
        let facts = fixture
            .class(IMAGE, CLASS)
            .and_then(|c| c.field(FIELD))
            .unwrap_or_else(|| {
                panic!("{}: the fixture has no {IMAGE}/{CLASS}.{FIELD}", fixture.game_version)
            });
        assert!(
            facts.is_static,
            "{}: {FIELD} is what makes this test worth having",
            fixture.game_version
        );
        let mut builder = fixture.builder();
        let table = builder
            .expect_class(IMAGE, CLASS)
            .static_table
            .unwrap_or_else(|| panic!("{}: no static table", fixture.game_version));
        builder.write_u64(table + u64::from(facts.offset), SENTINEL);
        let process = builder.finish();
        let module = process.runtime.as_ref().expect("a runtime");
        let class = module.get_class(IMAGE, CLASS).expect("the class");
        let found = class.get_static_field(FIELD).expect("the field");
        assert_eq!(
            read_u64(&process.memory, found),
            Some(SENTINEL),
            "{}: the static table is not where it is looked for",
            fixture.game_version
        );
        let walk = Walk::attach(&process);
        let laid = walk.class(IMAGE, CLASS).expect("the class");
        assert_eq!(walk.static_table(laid), table);
    }
}

/// A process captured as it stands, as a step of a recording where `base` and
/// `step` say so.
fn captured(
    process: &FakeProcess<SparseMemory>,
    version: &str,
    base: Option<Snapshot>,
    step: Option<(u32, &str)>,
) -> (String, Vec<u8>, Vec<u8>) {
    let mut metadata = Metadata::default();
    metadata.game_version = version.to_string();
    metadata.process_name = process.name.clone();
    metadata.process_path = process.path.clone();
    metadata.pid = process.pid as u32;
    let mut writer = Writer::create(metadata);
    if let Some(base) = base {
        writer = writer.with_base(base);
    }
    if let Some((index, event)) = step {
        writer.set_step(index, event);
    }
    let mut blob = Vec::new();
    for range in &process.ranges {
        let mut bytes = vec![0u8; range.size as usize];
        assert!(process.memory.read(range.address, &mut bytes));
        blob.extend(writer.add_range(*range, Some(&bytes)));
    }
    let module = |name: &str, address: u64, size: u64| ModuleInfo {
        name: name.to_string(),
        address,
        size,
        path: None,
    };
    let mut modules: Vec<ModuleInfo> = process
        .modules
        .iter()
        .map(|loaded| module(&loaded.name, loaded.address, loaded.size))
        .collect();
    modules.push(module("Timberborn.exe", 0x0800_0000, 0x1000));
    writer.add_modules(modules);
    let files = writer.finish();
    (files.manifest, files.index, blob)
}

fn opened(name: &str, files: (String, Vec<u8>, Vec<u8>), base: Option<Snapshot>) -> Snapshot {
    match Snapshot::open(name, &files.0, &files.1, files.2, base) {
        Ok(snapshot) => snapshot,
        Err(refused) => panic!("{}", refused.text(name, "")),
    }
}

/// The main menu, captured: a runtime that is up, and no game in it.
fn main_menu(fixture: &Fixture) -> World<Snapshot> {
    let mut scene = Scene::new(fixture);
    scene.scene_loader(false, false);
    let process = scene.finish();
    let files = captured(&process, &fixture.game_version, None, None);
    let snapshot = opened("main-menu", files, None);
    World::new().with_process(snapshot.process().with_runtime(process.runtime.expect("a runtime")))
}

#[test]
fn attaches_to_a_captured_process() {
    for fixture in fixtures() {
        let world = drive(main_menu(&fixture), 50);
        assert!(
            world.logged("Attached to pid"),
            "the splitter should recognise the capture as Timberborn; log was {:#?}",
            world.log
        );
        assert!(!world.logged("Still looking for Timberborn..."));
    }
}

#[test]
fn resolves_the_mono_runtime() {
    for fixture in fixtures() {
        let world = drive(main_menu(&fixture), 400);
        assert!(world.logged("Attached to the Mono runtime."), "log was {:#?}", world.log);
    }
}

#[test]
fn a_still_frame_starts_no_run() {
    for fixture in fixtures() {
        let world = drive(main_menu(&fixture), 400);
        assert_eq!(
            world.timer.run_control().len(),
            0,
            "events were {:#?}",
            world.timer.events
        );
    }
}

#[test]
fn crate_is_usable_from_a_native_test() {
    let entry: fn(World<SparseMemory>) -> Drive<SparseMemory> = Drive::new;
    let _ = &entry;
}

/// The splitter replayed over a recording of a run, one step at a time.
struct Replay {
    name: String,
    /// Which step was being served, and what the splitter did there.
    fired: Vec<(usize, TimerEvent)>,
    log: Vec<String>,
    recorded: Vec<String>,
}

/// What makes each step of a run a moment worth keeping.
fn events() -> Vec<&'static str> {
    vec![
        "begin",
        "load-ended",
        "start",
        "split",
        "split",
        "split",
        "split",
        "building-finished",
        "split",
        "split",
        "wonder-activated",
        "split",
    ]
}

/// Records the run that [`Run::step`] plays: a step before anything happened, and
/// one after each thing did.
fn record(fixture: &Fixture) -> (Vec<Snapshot>, Module) {
    let (mut world, run) = wonder_run(fixture);
    let runtime = world.processes[0].runtime.take().expect("a runtime");
    let mut steps: Vec<(String, Vec<u8>, Vec<u8>)> = Vec::new();
    let open = |upto: usize, steps: &Vec<(String, Vec<u8>, Vec<u8>)>| {
        let mut snapshot: Option<Snapshot> = None;
        for (index, files) in steps[..upto].iter().enumerate() {
            let name = format!("step-{index}");
            snapshot = Some(opened(&name, files.clone(), snapshot));
        }
        snapshot
    };
    for (index, event) in events().iter().enumerate() {
        if index > 0 {
            run.step(index - 1, &mut world.processes[0].memory);
        }
        let base = open(index, &steps);
        steps.push(captured(
            &world.processes[0],
            &fixture.game_version,
            base,
            Some((index as u32, event)),
        ));
    }
    let snapshots = (1..=steps.len()).map(|n| open(n, &steps).expect("a step")).collect();
    (snapshots, runtime)
}

/// Ticks a step is given before it plainly is not going to lead to anything.
const PER_STEP: usize = 300;

fn replay(fixture: &Fixture) -> Replay {
    let (steps, runtime) = record(fixture);
    let scenario = match Scenario::open(steps) {
        Ok(scenario) => scenario,
        Err(reason) => panic!("{reason}"),
    };
    let recorded = scenario.events();
    assert_eq!(scenario.len(), recorded.len());
    assert_eq!(scenario.game_version(), fixture.game_version);
    let process = scenario.into_process().with_runtime(runtime);
    let mut drive = Drive::new(World::new().with_process(process));
    let mut fired = Vec::new();
    let mut seen = 0;
    let mut budget = 0;
    // The load takes long enough for the splitter to find everything in it.
    let mut wait = 1500;
    loop {
        drive.tick();
        budget += 1;
        let events: Vec<TimerEvent> =
            drive.world.timer.run_control().into_iter().cloned().collect();
        let acted = events.len() > seen;
        if acted {
            let position = drive.world.processes[0].memory.position();
            for event in &events[seen..] {
                fired.push((position, event.clone()));
            }
            seen = events.len();
        }
        if acted || budget >= wait {
            budget = 0;
            wait = PER_STEP;
            if !advance_process(&mut drive.world.processes[0]) {
                break;
            }
        }
    }
    Replay { name: fixture.game_version.clone(), fired, log: drive.world.log, recorded }
}

fn replayed() -> Vec<Replay> {
    fixtures().iter().map(replay).collect()
}

#[test]
fn fires_the_whole_category() {
    for run in replayed() {
        let events: Vec<&TimerEvent> = run.fired.iter().map(|(_, e)| e).collect();
        assert_eq!(
            events.len(),
            8,
            "{}: expected a start and seven splits, got {events:?}",
            run.name
        );
        assert_eq!(events[0], &TimerEvent::Start, "{}", run.name);
        for event in &events[1..] {
            assert_eq!(**event, TimerEvent::Split, "{}", run.name);
        }
    }
}

#[test]
fn fires_them_where_they_were_recorded() {
    for run in replayed() {
        let expected: Vec<usize> = run
            .recorded
            .iter()
            .enumerate()
            .filter(|(_, label)| *label == "start" || *label == "split")
            .map(|(index, _)| index)
            .collect();
        let actual: Vec<usize> = run.fired.iter().map(|(step, _)| *step).collect();
        assert_eq!(
            actual, expected,
            "{}: the splitter acted at different steps than the recording did.\nrecorded steps: {:?}",
            run.name, run.recorded
        );
    }
}

#[test]
fn binds_the_run_start_during_the_load() {
    for run in replayed() {
        assert!(
            run.log.iter().any(|line| line.contains("run start bound during the load")),
            "{}: log was {:#?}",
            run.name,
            run.log
        );
        assert!(
            !run.log.iter().any(|line| line.contains("Not starting the timer")),
            "{}: the splitter declined to start; log was {:#?}",
            run.name,
            run.log
        );
    }
}

#[test]
fn splits_for_the_right_things_in_the_right_order() {
    for run in replayed() {
        let reasons: Vec<&str> = run
            .log
            .iter()
            .filter_map(|line| {
                line.strip_prefix("Split: ")
                    .or_else(|| line.strip_prefix("Run end: "))
            })
            .collect();
        assert_eq!(
            reasons,
            [
                "Forester finished.",
                "Gear Workshop finished.",
                "Tapper's Shack finished.",
                "Observatory / Numbercruncher finished.",
                "Smelter + Wood Workshop finished.",
                "wonder unlocked.",
                "Congratulations screen. Splitting.",
            ],
            "{}",
            run.name
        );
    }
}

#[test]
fn does_not_split_when_the_wonder_is_activated() {
    for run in replayed() {
        let activated = run
            .recorded
            .iter()
            .position(|label| label.starts_with("wonder-activated"))
            .unwrap_or_else(|| {
                panic!("{}: the recording should hold the wonder's activation", run.name)
            });
        assert!(
            !run.fired.iter().any(|(step, _)| *step == activated),
            "{}: the splitter split at the wonder's activation, which is not the run end",
            run.name
        );
    }
}

#[test]
fn reports_which_runs_are_being_replayed() {
    let runs = replayed();
    let names: Vec<&str> = runs.iter().map(|r| r.name.as_str()).collect();
    println!("wonder-run recordings in use: {names:?}");
    assert!(!names.is_empty());
}
