//! What is being loaded, and that a game loaded from a save starts no run.
use vstd::prelude::*;

use crate::buildings::Split;
use crate::conduct::{
    is_quiet, lemma_bound, lemma_loaded, lemma_loader, lemma_polled, lemma_resolved, lemma_scouted,
    lemma_sought, lemma_started_after, lemma_walked,
};
use crate::locate::Locate;
use crate::memory::{plus, Memory};
use crate::metadata::Module;
use crate::note::{logged, Action, Note, Warning};
use crate::promise::reading::{
    a_field_is_at_its_offset, has_byte, has_number, has_word, is_honest, top, what_is_read_is_there,
    what_is_there_is_read,
};
use crate::run_start::RunStart;
use crate::scene::{is_set, Scene, SceneLoad};
use crate::service::offset_on;
use crate::settings::Settings;
use crate::splitter::{Phase, Scout, Splitter};
use crate::table::ReferenceTable;
use crate::timer::TimerState;
use crate::watch::{ending, splitting_all, starting, unlocking, Sight, Stage, Watch};

verus! {

/// Whether the parameters that the loader holds are at `params`, and begin with
/// `vtable`.
pub open spec fn has_parameters<M: Memory>(
    memory: &M,
    module: Module,
    scene: SceneLoad,
    params: u64,
    vtable: u64,
) -> bool {
    &&& params != 0
    &&& vtable != 0
    &&& has_word(memory, params as int, vtable)
    &&& module.offset(scene.class.image@, scene.class.name@, "_sceneParameters"@) matches Some(
        offset,
    ) && has_word(memory, scene.instance + offset, params)
}

/// Whether the field of the object at `object` holds `value`.
pub open spec fn holds<M: Memory>(
    memory: &M,
    module: Module,
    object: u64,
    field: Seq<char>,
    value: u64,
) -> bool {
    module.class_of(memory, object) matches Some(class) && (class.offset(field) matches Some(offset)
        && has_word(memory, object + offset, value))
}

/// Whether a vtable is that of a game's parameters.
pub open spec fn is_game(module: Module, vtable: u64) -> bool {
    &&& module.vtable("Timberborn.GameSceneLoading"@, "GameSceneParameters"@) == Some(vtable)
    &&& !is_menu(module, vtable)
    &&& !is_editor(module, vtable)
}

/// Whether a vtable is that of the main menu's parameters.
pub open spec fn is_menu(module: Module, vtable: u64) -> bool {
    module.vtable("Timberborn.MainMenuSceneLoading"@, "MainMenuSceneParameters"@) == Some(vtable)
}

/// Whether a vtable is that of the map editor's parameters.
pub open spec fn is_editor(module: Module, vtable: u64) -> bool {
    module.vtable("Timberborn.MapEditorSceneLoading"@, "MapEditorSceneParameters"@) == Some(vtable)
}

proof fn lemma_held<M: Memory>(
    memory: &M,
    module: Module,
    object: u64,
    field: Seq<char>,
    value: u64,
)
    requires
        holds(memory, module, object, field, value),
    ensures
        is_set(memory, module, object, field) <==> value != 0,
{
    let offset = offset_on(memory, module, object, field)->0;
    a_field_is_at_its_offset(memory, object, offset, value);
}

proof fn lemma_parameters<M: Memory>(
    memory: &M,
    module: Module,
    scene: SceneLoad,
    params: u64,
    vtable: u64,
)
    requires
        has_parameters(memory, module, scene, params, vtable),
    ensures
        scene.incoming(memory, module) == crate::scene::scene_of(memory, module, params),
        crate::memory::pointer_at(memory, params) == Some(vtable),
{
    let offset = module.offset(scene.class.image@, scene.class.name@, "_sceneParameters"@)->0;
    a_field_is_at_its_offset(memory, scene.instance, offset, params);
    what_is_there_is_read(memory, params as int, vtable, 0, 0);
}

/// A game whose parameters hold a save is no new one, whatever else they hold.
pub proof fn a_save_is_no_new_game<M: Memory>(
    scene: SceneLoad,
    memory: &M,
    module: Module,
    params: u64,
    vtable: u64,
    save: u64,
)
    requires
        has_parameters(memory, module, scene, params, vtable),
        is_game(module, vtable),
        holds(memory, module, params, "<SaveReference>k__BackingField"@, save),
        save != 0,
    ensures
        scene.incoming(memory, module) == (Scene::Game { new_game: false }),
{
    lemma_parameters(memory, module, scene, params, vtable);
    lemma_held(memory, module, params, "<SaveReference>k__BackingField"@, save);
}

/// A game whose parameters hold no save is a new one just where they hold what it
/// is to be made from.
pub proof fn a_new_game_has_a_configuration<M: Memory>(
    scene: SceneLoad,
    memory: &M,
    module: Module,
    params: u64,
    vtable: u64,
    configuration: u64,
)
    requires
        has_parameters(memory, module, scene, params, vtable),
        is_game(module, vtable),
        holds(memory, module, params, "<SaveReference>k__BackingField"@, 0),
        holds(memory, module, params, "<NewGameConfiguration>k__BackingField"@, configuration),
    ensures
        scene.incoming(memory, module) == (Scene::Game { new_game: configuration != 0 }),
{
    lemma_parameters(memory, module, scene, params, vtable);
    lemma_held(memory, module, params, "<SaveReference>k__BackingField"@, 0);
    lemma_held(
        memory,
        module,
        params,
        "<NewGameConfiguration>k__BackingField"@,
        configuration,
    );
}

/// Where the parameters' class has no place for a save, what a new game is to be
/// made from decides alone.
pub proof fn parameters_without_a_save_field<M: Memory>(
    scene: SceneLoad,
    memory: &M,
    module: Module,
    params: u64,
    vtable: u64,
    configuration: u64,
)
    requires
        has_parameters(memory, module, scene, params, vtable),
        is_game(module, vtable),
        module.class_of(memory, params) matches Some(class) && class.offset(
            "<SaveReference>k__BackingField"@,
        ) is None,
        holds(memory, module, params, "<NewGameConfiguration>k__BackingField"@, configuration),
    ensures
        scene.incoming(memory, module) == (Scene::Game { new_game: configuration != 0 }),
{
    lemma_parameters(memory, module, scene, params, vtable);
    lemma_held(
        memory,
        module,
        params,
        "<NewGameConfiguration>k__BackingField"@,
        configuration,
    );
}

/// A scene is told by the class of its parameters: the main menu and the map
/// editor are no games, and what is of another class is not known.
pub proof fn the_class_of_the_parameters_tells_the_scene<M: Memory>(
    scene: SceneLoad,
    memory: &M,
    module: Module,
    params: u64,
    vtable: u64,
)
    requires
        has_parameters(memory, module, scene, params, vtable),
    ensures
        is_menu(module, vtable) ==> scene.incoming(memory, module) is MainMenu,
        is_editor(module, vtable) && !is_menu(module, vtable) ==> scene.incoming(
            memory,
            module,
        ) is MapEditor,
        is_game(module, vtable) ==> scene.incoming(memory, module) is Game,
        !is_menu(module, vtable) && !is_editor(module, vtable) && !is_game(module, vtable)
            ==> scene.incoming(memory, module) is Unknown,
{
    lemma_parameters(memory, module, scene, params, vtable);
}

/// The loader says it is at work by a byte that is not zero.
pub proof fn the_loader_says_when_it_loads<M: Memory>(scene: SceneLoad, memory: &M, byte: u8)
    requires
        has_byte(memory, scene.instance + scene.offset, byte),
    ensures
        scene.flag(memory) == Some(byte != 0),
        scene.told(scene.flag(memory)).loading == (byte != 0),
{
    what_is_there_is_read(memory, scene.instance + scene.offset, 0, 0, byte);
}

/// Whether the loader's parameters are a game's and hold a save.
pub open spec fn has_save<M: Memory>(
    memory: &M,
    module: Module,
    scene: SceneLoad,
    params: u64,
    vtable: u64,
    save: u64,
) -> bool {
    &&& has_parameters(memory, module, scene, params, vtable)
    &&& is_game(module, vtable)
    &&& holds(memory, module, params, "<SaveReference>k__BackingField"@, save)
    &&& save != 0
}

/// Whether what the loader was last given is a save.
pub open spec fn is_given_save<M: Memory>(memory: &M, module: Module, scene: SceneLoad) -> bool {
    exists|params: u64, vtable: u64, save: u64| #[trigger]
        has_save(memory, module, scene, params, vtable, save)
}

/// Whether the loader, if it is at work, is loading a save.
pub open spec fn loads_only_saves<M: Memory>(memory: &M, module: Module, scene: SceneLoad) -> bool {
    forall|byte: u8|
        byte != 0 && #[trigger] has_byte(
            memory,
            plus(scene.instance, scene.offset as u64) as int,
            byte,
        ) ==> is_given_save(memory, module, scene)
}

proof fn lemma_given<M: Memory>(memory: &M, module: Module, scene: SceneLoad)
    requires
        is_given_save(memory, module, scene),
    ensures
        scene.incoming(memory, module) == (Scene::Game { new_game: false }),
{
    let (params, vtable, save) = choose|params: u64, vtable: u64, save: u64| #[trigger]
        has_save(memory, module, scene, params, vtable, save);
    a_save_is_no_new_game(scene, memory, module, params, vtable, save);
}

proof fn lemma_given_told<M: Memory>(memory: &M, module: Module, scene: SceneLoad, flag: Option<bool>)
    ensures
        scene.told(flag).incoming(memory, module) == scene.incoming(memory, module),
{
}

/// Whether a watcher was told that its game is a save's.
pub open spec fn is_told_of_save(start: Option<RunStart>) -> bool {
    start matches Some(start) ==> start.new_game == Some(false)
}

/// Whether a watcher was told so, or can still be.
pub open spec fn can_be_told(start: Option<RunStart>) -> bool {
    start matches Some(start) ==> start.new_game == Some(false) || !start.fired
        && !start.warned_late
}

/// Whether all that is known on the way to a game, or of it, is that it is a
/// save's.
pub open spec fn is_in_save(splitter: Splitter) -> bool {
    match splitter.phase {
        Phase::Load(scout) => is_save(scout.scene) && can_be_told(scout.run_start),
        Phase::BindEarly(scout, _, _) => is_save(scout.scene) && can_be_told(scout.run_start),
        Phase::Loaded(scout) => is_save_scout(scout),
        Phase::FindStart(scout, _, _) => is_save_scout(scout),
        Phase::Pause(scout, _) => is_save_scout(scout),
        Phase::Watching(_, watch) => is_save_watch(watch),
        _ => splitter.scouting() matches Some(scout) ==> is_save_scout(scout),
    }
}

/// Whether what was last loaded is known to be a save.
pub open spec fn is_save(scene: SceneLoad) -> bool {
    scene.loaded == (Scene::Game { new_game: false })
}

/// The same, of what is known on the way to a game.
pub open spec fn is_save_scout(scout: Scout) -> bool {
    is_save(scout.scene) && is_told_of_save(scout.run_start)
}

/// The same, of a game that is watched.
pub open spec fn is_save_watch(watch: Watch) -> bool {
    is_save(watch.scene) && is_told_of_save(watch.run_start) && watch.expect_new_game == Some(false)
}

/// The loader that is known, if any.
pub open spec fn loader_of(splitter: Splitter) -> Option<SceneLoad> {
    match splitter.phase {
        Phase::Load(scout) => Some(scout.scene),
        Phase::BindEarly(scout, _, _) => Some(scout.scene),
        Phase::Loaded(scout) => Some(scout.scene),
        Phase::FindStart(scout, _, _) => Some(scout.scene),
        Phase::Pause(scout, _) => Some(scout.scene),
        Phase::Watching(_, watch) => Some(watch.scene),
        _ => match splitter.scouting() {
            Some(scout) => Some(scout.scene),
            None => None,
        },
    }
}

/// Whether the timer is not asked to start.
pub open spec fn is_startless(asked: Seq<Action>) -> bool {
    forall|i: int| 0 <= i < asked.len() ==> (#[trigger] asked[i]) !is Start
}

proof fn lemma_startless_both(one: Seq<Action>, two: Seq<Action>)
    requires
        is_startless(one),
        is_startless(two),
    ensures
        is_startless(one + two),
{
    let all = one + two;
    assert forall|i: int| 0 <= i < all.len() implies (#[trigger] all[i]) !is Start by {
        if i < one.len() {
            assert(all[i] == one[i]);
        } else {
            assert(all[i] == two[i - one.len()]);
        }
    }
}

proof fn lemma_quiet_startless(asked: Seq<Action>)
    requires
        is_quiet(asked),
    ensures
        is_startless(asked),
{
}

proof fn lemma_splits_startless(splits: Seq<Split>, settings: Settings, timer: TimerState)
    ensures
        is_startless(splitting_all(splits, settings, timer)),
    decreases splits.len(),
{
    if splits.len() > 0 {
        lemma_splits_startless(splits.drop_last(), settings, timer);
        lemma_startless_both(
            splitting_all(splits.drop_last(), settings, timer),
            crate::watch::splitting(splits.last(), settings, timer),
        );
    }
}

proof fn lemma_save_bottomed<M: Memory>(
    watch: Watch,
    memory: &M,
    module: Module,
    settings: Settings,
    timer: TimerState,
    after: Watch,
    asked: Seq<Action>,
)
    requires
        is_save_watch(watch),
        watch.bottomed(memory, module, settings, timer, after, asked),
    ensures
        is_save_watch(after),
        is_startless(asked),
{
    let (mid, fired) = choose|mid: Watch, fired: Seq<Split>|
        {
            &&& #[trigger] watch.valid_only(memory).built(memory, mid, fired)
            &&& {
                let (polled, unlocked) = mid.unlock_polled(memory, module);
                let (last, ends, notes) = polled.completion_polled(memory, module);
                &&& after == (Watch {
                    ticks: if watch.ticks == u32::MAX {
                        0
                    } else {
                        (watch.ticks + 1) as u32
                    },
                    stage: Stage::Top,
                    ..last
                })
                &&& asked == splitting_all(fired, settings, timer) + unlocking(
                    unlocked,
                    settings,
                    timer,
                ) + logged(notes) + ending(ends, polled.unlock, settings, timer)
            }
        };
    let (polled, unlocked) = mid.unlock_polled(memory, module);
    let (last, ends, notes) = polled.completion_polled(memory, module);
    let one = splitting_all(fired, settings, timer);
    let two = unlocking(unlocked, settings, timer);
    let three = logged(notes);
    let four = ending(ends, polled.unlock, settings, timer);
    lemma_splits_startless(fired, settings, timer);
    assert(is_startless(two));
    assert(is_startless(three));
    assert(is_startless(four));
    lemma_startless_both(one, two);
    lemma_startless_both(one + two, three);
    lemma_startless_both(one + two + three, four);
}

proof fn lemma_save_middled<M: Memory>(
    watch: Watch,
    memory: &M,
    module: Module,
    settings: Settings,
    timer: TimerState,
    after: Watch,
    asked: Seq<Action>,
)
    requires
        is_save_watch(watch),
        watch.middled(memory, module, settings, timer, after, asked),
    ensures
        is_save_watch(after),
        is_startless(asked),
{
    let (polled, state, starts) = watch.started(memory, settings, timer);
    let (dated, days) = polled.dated(memory);
    if let Some(start) = watch.run_start {
        lemma_polled(start, start.state(memory), start.save_name(memory), timer);
    }
    assert(is_startless(starts));
    assert(is_save_watch(dated));
    lemma_startless_both(starts, days);
    if !dated.resolves(memory) {
        let rest = choose|rest: Seq<Action>|
            {
                &&& #[trigger] dated.bottomed(memory, module, settings, state, after, rest)
                &&& asked == starts + days + rest
            };
        lemma_save_bottomed(dated, memory, module, settings, state, after, rest);
        lemma_startless_both(starts + days, rest);
    }
}

proof fn lemma_save_topped<M: Memory>(
    watch: Watch,
    sight: Sight<M>,
    timer: TimerState,
    table: Option<ReferenceTable>,
    after: Watch,
    table_after: Option<ReferenceTable>,
    left: bool,
    asked: Seq<Action>,
)
    requires
        is_save_watch(watch),
        watch.topped(sight, timer, table, after, table_after, left, asked),
    ensures
        is_save_watch(after),
        is_startless(asked),
{
    let memory = sight.memory;
    let module = *sight.module;
    let flag = watch.scene.flag(memory);
    let told = Watch { scene: watch.scene.told(flag), ..watch };
    let (checked, said) = told.checked(memory);
    let target = crate::run_start::initializer_in(module, watch.event_bus_vtable);
    if flag == Some(true) && !watch.scene.loading {
    } else if checked.seeks_start() && target is Some {
        let notes = choose|notes: Seq<Note>| asked == said + #[trigger] logged(notes);
        lemma_startless_both(said, logged(notes));
    } else {
        let rest = choose|rest: Seq<Action>|
            {
                &&& #[trigger] checked.middled(memory, module, sight.settings, timer, after, rest)
                &&& asked == said + rest
            };
        lemma_save_middled(checked, memory, module, sight.settings, timer, after, rest);
        lemma_startless_both(said, rest);
    }
}

/// While a game that is a save's is watched, nothing is started.
pub proof fn a_watched_save_starts_nothing<M: Memory>(
    watch: Watch,
    sight: Sight<M>,
    timer: TimerState,
    table: Option<ReferenceTable>,
    after: Watch,
    table_after: Option<ReferenceTable>,
    left: bool,
    asked: Seq<Action>,
)
    requires
        is_save_watch(watch),
        watch.stepped(sight, timer, table, after, table_after, left, asked),
    ensures
        is_save_watch(after),
        is_startless(asked),
{
    let memory = sight.memory;
    let module = *sight.module;
    match watch.stage {
        Stage::Top => lemma_save_topped(
            watch,
            sight,
            timer,
            table,
            after,
            table_after,
            left,
            asked,
        ),
        Stage::Finding(locate, offset) => {
            lemma_sought(
                watch.at(Stage::Top),
                sight,
                locate,
                offset,
                table,
                after,
                table_after,
                asked,
            );
        },
        Stage::Middle => lemma_save_middled(
            watch,
            memory,
            module,
            sight.settings,
            timer,
            after,
            asked,
        ),
        Stage::Refreshing(_) => {},
        Stage::Describing => {},
        Stage::Resolving => {
            lemma_resolved(watch, memory, module, after, asked);
        },
        Stage::Walking(walk) => {
            lemma_walked(watch.at(Stage::Top), memory, walk, after, asked);
        },
        _ => lemma_save_bottomed(watch, memory, module, sight.settings, timer, after, asked),
    }
}

/// What is on the way to a game goes with it from phase to phase.
proof fn lemma_goes_along<M: Memory>(
    splitter: Splitter,
    sight: Sight<M>,
    scout: Scout,
    after: Splitter,
    asked: Seq<Action>,
)
    requires
        splitter.scouted(sight, scout, after, asked),
        is_save_scout(scout),
    ensures
        is_in_save(after),
        loader_of(after) == Some(scout.scene),
{
}

/// A load that is seen to load a save is known for it, whatever was known of it
/// before, unless a watcher has already decided.
pub proof fn a_save_that_loads_is_known<M: Memory>(
    splitter: Splitter,
    sight: Sight<M>,
    timer: TimerState,
    after: Splitter,
    asked: Seq<Action>,
    scout: Scout,
    byte: u8,
)
    requires
        splitter.stepped(sight, timer, after, asked),
        splitter.phase == Phase::Load(scout),
        can_be_told(scout.run_start),
        byte != 0,
        has_byte(sight.memory, scout.scene.instance + scout.scene.offset, byte),
        is_given_save(sight.memory, *sight.module, scout.scene),
    ensures
        is_in_save(after),
        is_startless(asked),
{
    the_loader_says_when_it_loads(scout.scene, sight.memory, byte);
    lemma_given(sight.memory, *sight.module, scout.scene);
    lemma_given_told(sight.memory, *sight.module, scout.scene, Some(true));
    lemma_loaded(splitter.at(Phase::Begin), sight, scout, after, asked);
}

/// A step in a game that is a save's, or on the way to one, starts nothing and
/// stays in it, as long as the loader loads nothing but saves.
pub proof fn a_step_in_a_save_starts_nothing<M: Memory>(
    splitter: Splitter,
    sight: Sight<M>,
    timer: TimerState,
    after: Splitter,
    asked: Seq<Action>,
)
    requires
        is_honest(sight.memory),
        splitter.stepped(sight, timer, after, asked),
        is_in_save(splitter),
        loader_of(splitter) matches Some(scene) ==> loads_only_saves(
            sight.memory,
            *sight.module,
            scene,
        ),
        loader_of(splitter) is None ==> (loader_of(after) matches Some(scene) ==> is_given_save(
            sight.memory,
            *sight.module,
            scene,
        )),
    ensures
        is_in_save(after),
        is_startless(asked),
{
    let here = splitter.at(Phase::Begin);
    let memory = sight.memory;
    let module = *sight.module;
    match splitter.scouting() {
        Some(scout) => {
            let (polled, said) = scout.polled(memory, sight.settings, timer);
            let rest = choose|rest: Seq<Action>|
                {
                    &&& #[trigger] splitter.scouted(sight, polled, after, rest)
                    &&& asked == said + rest
                };
            if let Some(start) = scout.run_start {
                lemma_polled(start, start.state(memory), start.save_name(memory), timer);
            }
            assert(is_startless(said));
            assert(is_save_scout(polled));
            lemma_goes_along(splitter, sight, polled, after, rest);
            lemma_scouted(splitter, sight, polled, after, rest);
            lemma_startless_both(said, rest);
        },
        None => match splitter.phase {
            Phase::FindLoader(session, again, locate, offset) => {
                lemma_loader(here, sight, session, again, locate, offset, after, asked);
                if let Phase::Load(scout) = after.phase {
                    assert(loader_of(after) == Some(scout.scene));
                    lemma_given(memory, module, scout.scene);
                }
            },
            Phase::Load(scout) => {
                lemma_loaded(here, sight, scout, after, asked);
                if scout.scene.flag(memory) == Some(true) {
                    let at = plus(scout.scene.instance, scout.scene.offset as u64);
                    what_is_read_is_there(memory, at);
                    let byte = crate::memory::u8_at(memory, at)->0;
                    assert(has_byte(memory, at as int, byte));
                    lemma_given(memory, module, scout.scene);
                    lemma_given_told(memory, module, scout.scene, Some(true));
                }
            },
            Phase::BindEarly(scout, locate, offset) => {
                lemma_bound(here, sight, scout, locate, offset, after, asked);
            },
            Phase::Loaded(scout) => {
                lemma_started_after(here, sight, scout, after, asked);
            },
            Phase::FindStart(scout, locate, offset) => {
                lemma_bound(here, sight, scout, locate, offset, after, asked);
            },
            Phase::Watching(session, watch) => {
                let (next, left, said) = choose|next: Watch, left: bool, said: Seq<Action>|
                    {
                        &&& #[trigger] watch.stepped(
                            sight,
                            timer,
                            here.table,
                            next,
                            after.table,
                            left,
                            said,
                        )
                        &&& if !left {
                            after.phase == Phase::Watching(session, next) && asked == said
                        } else if next.scene.class.validator.admits(memory, next.scene.instance) {
                            &&& after.phase == Phase::Load(
                                Scout { session, scene: next.scene, run_start: None },
                            )
                            &&& asked == said.push(Action::Log(Note::SceneLoading))
                        } else {
                            &&& after.phase == Phase::SeekLoader(session, true)
                            &&& asked == said.push(Action::Log(Note::SceneLoaderGone))
                        }
                    };
                a_watched_save_starts_nothing(
                    watch,
                    sight,
                    timer,
                    here.table,
                    next,
                    after.table,
                    left,
                    said,
                );
            },
            _ => {},
        },
    }
}

/// Steps of the splitter, one behind the other, while the loader loads nothing
/// but saves.
pub open spec fn are_steps_in_saves<'a, M: Memory>(
    splitters: Seq<Splitter>,
    sights: Seq<Sight<'a, M>>,
    timers: Seq<TimerState>,
    asked: Seq<Seq<Action>>,
) -> bool {
    &&& splitters.len() == sights.len() + 1
    &&& timers.len() == sights.len()
    &&& asked.len() == sights.len()
    &&& forall|i: int, j: int|
        0 <= i < sights.len() && j == i + 1 ==> {
            &&& is_honest(sights[i].memory)
            &&& (#[trigger] splitters[i]).stepped(
                sights[i],
                timers[i],
                #[trigger] splitters[j],
                asked[i],
            )
            &&& loader_of(splitters[i]) matches Some(scene) ==> loads_only_saves(
                sights[i].memory,
                *sights[i].module,
                scene,
            )
            &&& loader_of(splitters[i]) is None ==> (loader_of(splitters[j]) matches Some(scene)
                ==> is_given_save(sights[i].memory, *sights[i].module, scene))
        }
}

/// However a save that is loaded goes on, and whatever the states of its
/// initializer, the timer is never asked to start.
pub proof fn a_save_starts_no_run<'a, M: Memory>(
    splitters: Seq<Splitter>,
    sights: Seq<Sight<'a, M>>,
    timers: Seq<TimerState>,
    asked: Seq<Seq<Action>>,
    n: int,
)
    requires
        are_steps_in_saves(splitters, sights, timers, asked),
        is_in_save(splitters[0]),
        0 <= n < splitters.len(),
    ensures
        is_in_save(splitters[n]),
        n > 0 ==> !asked[n - 1].contains(Action::Start),
    decreases n,
{
    if n > 0 {
        a_save_starts_no_run(splitters, sights, timers, asked, n - 1);
        assert(splitters[n - 1].stepped(
            sights[n - 1],
            timers[n - 1],
            splitters[n],
            asked[n - 1],
        ));
        a_step_in_a_save_starts_nothing(
            splitters[n - 1],
            sights[n - 1],
            timers[n - 1],
            splitters[n],
            asked[n - 1],
        );
        if asked[n - 1].contains(Action::Start) {
            let k = asked[n - 1].index_of(Action::Start);
            assert(asked[n - 1][k] is Start);
        }
    }
}

/// A reading of the initializer starts a run where the overlay is up, one before
/// it was seen, none was started since, and the game is a new one: as the load
/// said, or where that is not known, as no save being named says.
pub proof fn a_run_starts_with_the_overlay(
    start: RunStart,
    state: i32,
    name: Option<i32>,
    timer: TimerState,
)
    ensures
        start.polled(Some(state), name, timer).1 <==> {
            &&& state >= 4
            &&& start.seen_before_ui
            &&& !start.fired
            &&& start.new_game == Some(true) || start.new_game is None && name is None
        },
        !start.polled(None, name, timer).1,
        start.polled(Some(state), name, timer).0.seen_before_ui <==> start.seen_before_ui || state
            < 4,
        start.polled(Some(state), name, timer).1 ==> start.polled(Some(state), name, timer).0.fired,
        start.polled(Some(state), name, timer).0.last == Some(state),
        start.polled(Some(state), name, timer).0.new_game == start.new_game,
{
    match start.new_game {
        Some(new_game) => {
            if new_game {
                assert(start.new_game == Some(true));
            } else {
                assert(start.new_game == Some(false));
            }
        },
        None => {},
    }
}

/// The state is the initializer's own, and a save is named by a text that is not
/// empty.
pub proof fn a_start_reads_its_initializer<M: Memory>(
    start: RunStart,
    memory: &M,
    state: i32,
    text: u64,
    len: i32,
)
    requires
        start.instance + start.offset < top(),
    ensures
        has_number(memory, start.instance + start.offset, state) ==> start.state(memory) == Some(
            state,
        ),
        start.source_file_name matches Some(reference) ==> {
            &&& has_word(memory, reference as int, 0) ==> start.save_name(memory) is None
            &&& text != 0 && has_word(memory, reference as int, text) && has_number(
                memory,
                text + 0x10,
                len,
            ) ==> start.save_name(memory) == if len > 0 {
                Some(len)
            } else {
                None
            }
        },
        start.source_file_name is None ==> start.save_name(memory) is None,
{
    what_is_there_is_read(memory, start.instance + start.offset, 0, state, 0);
    if let Some(reference) = start.source_file_name {
        what_is_there_is_read(memory, reference as int, 0, 0, 0);
        what_is_there_is_read(memory, reference as int, text, 0, 0);
        what_is_there_is_read(memory, text + 0x10, 0, len, 0);
    }
}

/// A run that starts asks a stopped timer to start where that is turned on,
/// before a game is watched and while it is, and nothing else asks it to.
pub proof fn a_started_run_starts_the_timer<M: Memory>(
    scout: Scout,
    watch: Watch,
    start: RunStart,
    memory: &M,
    settings: Settings,
    timer: TimerState,
)
    requires
        scout.run_start == Some(start),
        watch.run_start == Some(start),
    ensures
        ({
            let starts = start.polled(start.state(memory), start.save_name(memory), timer).1;
            let asks = starts && settings.start && timer is NotRunning;
            &&& scout.polled(memory, settings, timer).1.contains(Action::Start) <==> asks
            &&& watch.started(memory, settings, timer).2.contains(Action::Start) <==> asks
            &&& watch.started(memory, settings, timer).1 == if asks {
                TimerState::Running
            } else {
                timer
            }
            &&& watch.started(memory, settings, timer).0.run_began == (watch.run_began || starts)
            &&& starts ==> watch.started(memory, settings, timer).0.buildings is None
        }),
{
    let (after, starts, said) = start.polled(start.state(memory), start.save_name(memory), timer);
    lemma_polled(start, start.state(memory), start.save_name(memory), timer);
    let more = starting(settings, timer).1;
    let one = said + more;
    let cleared = said + seq![Action::ClearStatus];
    let two = cleared + more;
    assert(!said.contains(Action::Start));
    if settings.start && timer is NotRunning {
        assert(one[said.len() as int + 1] == Action::Start);
        assert(two[cleared.len() as int + 1] == Action::Start);
    } else {
        assert(is_startless(more));
        lemma_startless_both(said, more);
        lemma_startless_both(said, seq![Action::ClearStatus]);
        lemma_startless_both(cleared, more);
        assert(is_startless(one) && is_startless(two));
    }
}

/// While a load runs, what is known of it follows the loader's parameters: what
/// they say as soon as they say anything, and that the load was watched.
pub proof fn a_load_is_what_its_parameters_say<M: Memory>(
    splitter: Splitter,
    sight: Sight<M>,
    timer: TimerState,
    after: Splitter,
    asked: Seq<Action>,
    scout: Scout,
    byte: u8,
)
    requires
        splitter.stepped(sight, timer, after, asked),
        splitter.phase == Phase::Load(scout),
        byte != 0,
        has_byte(sight.memory, scout.scene.instance + scout.scene.offset, byte),
    ensures
        ({
            let incoming = scout.scene.incoming(sight.memory, *sight.module);
            &&& after.phase is Load || after.phase is BindEarly
            &&& loader_of(after) matches Some(scene) && scene.observed && scene.loading
                && scene.instance == scout.scene.instance && scene.loaded == if incoming is Unknown {
                scout.scene.loaded
            } else {
                incoming
            }
            &&& after.phase is BindEarly ==> scout.run_start is None && (loader_of(
                after,
            ) matches Some(scene) && scene.loaded is Game)
        }),
{
    the_loader_says_when_it_loads(scout.scene, sight.memory, byte);
    lemma_given_told(sight.memory, *sight.module, scout.scene, Some(true));
}

/// When a load is over, a watcher that has not decided yet is told what it was,
/// whatever it was told before.
pub proof fn what_was_loaded_is_told<M: Memory>(
    splitter: Splitter,
    sight: Sight<M>,
    timer: TimerState,
    after: Splitter,
    asked: Seq<Action>,
    scout: Scout,
    start: RunStart,
    new_game: bool,
)
    requires
        splitter.stepped(sight, timer, after, asked),
        splitter.phase == Phase::Load(scout),
        has_byte(sight.memory, scout.scene.instance + scout.scene.offset, 0),
        scout.run_start == Some(start),
        scout.scene.loaded == (Scene::Game { new_game }),
    ensures
        after.phase matches Phase::Loaded(next) && (next.run_start matches Some(told)
            && told.instance == start.instance && told.new_game == if start.fired
            || start.warned_late {
            start.new_game
        } else {
            Some(new_game)
        }),
{
    the_loader_says_when_it_loads(scout.scene, sight.memory, 0);
}

/// A watcher that is bound is told what was loaded, and whether that was watched.
pub proof fn a_bound_watcher_is_told_what_loaded<M: Memory>(
    splitter: Splitter,
    sight: Sight<M>,
    timer: TimerState,
    after: Splitter,
    asked: Seq<Action>,
    scout: Scout,
    locate: Locate,
    offset: u32,
    start: RunStart,
)
    requires
        splitter.stepped(sight, timer, after, asked),
        scout.run_start is None,
    ensures
        splitter.phase == Phase::BindEarly(scout, locate, offset) && (after.phase matches
            Phase::Load(next) && next.run_start == Some(start)) ==> start.new_game == (
        match scout.scene.loaded {
            Scene::Game { new_game } => Some(new_game),
            _ => None,
        }) && start.watched_load && start.offset == offset,
        splitter.phase == Phase::FindStart(scout, locate, offset) && (after.phase matches
            Phase::EnsureTable(next) && next.run_start == Some(start)) ==> start.new_game == (
        match scout.scene.loaded {
            Scene::Game { new_game } => Some(new_game),
            _ => None,
        }) && start.watched_load == scout.scene.observed && start.offset == offset,
{
}

/// Whether a warning is among what is asked.
pub open spec fn warns(asked: Seq<Action>, warning: Warning) -> bool {
    exists|i: int| 0 <= i < asked.len() && #[trigger] asked[i] == Action::Warn(warning)
}

/// A watcher that comes to a new game only after its overlay says so once, to a
/// runner whose timer is not running: that the start was missed, where the load
/// was watched, and otherwise that the game is already in progress.
pub proof fn a_late_watcher_says_so_once(
    start: RunStart,
    state: i32,
    name: Option<i32>,
    timer: TimerState,
    again: i32,
)
    requires
        state >= 4,
        again >= 4,
        !start.seen_before_ui,
        !start.fired,
        start.new_game != Some(false),
    ensures
        ({
            let (after, starts, said) = start.polled(Some(state), name, timer);
            let says = !start.warned_late && timer is NotRunning;
            &&& !starts
            &&& after.warned_late
            &&& warns(said, Warning::RunStartMissed) <==> says && start.watched_load
            &&& warns(said, Warning::GameInProgress) <==> says && !start.watched_load
            &&& !warns(
                after.polled(Some(again), name, timer).2,
                Warning::RunStartMissed,
            ) && !warns(after.polled(Some(again), name, timer).2, Warning::GameInProgress)
        }),
{
    let (after, starts, said) = start.polled(Some(state), name, timer);
    let loud = !start.warned_late && timer is NotRunning;
    let first: int = if start.last == Some(state) {
        0
    } else {
        1
    };
    if loud {
        assert(said[first + 1] == Action::Warn(
            if start.watched_load {
                Warning::RunStartMissed
            } else {
                Warning::GameInProgress
            },
        ));
        assert(said.len() == first + 2);
        assert(said[first] is Log);
    }
    let more = after.polled(Some(again), name, timer).2;
    assert forall|i: int| 0 <= i < more.len() implies (#[trigger] more[i]) is Log by {}
}

} // verus!
