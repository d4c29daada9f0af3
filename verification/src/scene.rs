//! Whether a scene is being loaded, and which.
use vstd::prelude::*;

use crate::memory::{
    field_pointer, offset_by, plus, pointer_at, read_pointer, read_pointer_raw, read_u8, u8_at,
    Memory,
};
use crate::metadata::Module;
use crate::note::Note;
use crate::service::{class_vtable, field_of, field_offset, locatable, offset_on, Locatable};

verus! {

/// Which scene a load is producing, and for a game, how it was started.
#[derive(Clone, Copy, PartialEq, Eq, Debug, Structural)]
pub enum Scene {
    Game { new_game: bool },
    MainMenu,
    MapEditor,
    Unknown,
}

impl Scene {
    /// Whether the scene is certain not to be a game.
    pub open spec fn no_game(self) -> bool {
        self is MainMenu || self is MapEditor
    }

    /// Whether the scene is certain not to be a game.
    pub fn is_no_game(&self) -> (no: bool)
        ensures
            no == self.no_game(),
    {
        match self {
            Scene::MainMenu => true,
            Scene::MapEditor => true,
            _ => false,
        }
    }

    /// The scene, in words.
    pub open spec fn line(self) -> Seq<char> {
        match self {
            Scene::Game { new_game: true } => "Game { new_game: true }"@,
            Scene::Game { new_game: false } => "Game { new_game: false }"@,
            Scene::MainMenu => "MainMenu"@,
            Scene::MapEditor => "MapEditor"@,
            Scene::Unknown => "Unknown"@,
        }
    }

    /// The scene, in words.
    pub fn name(&self) -> (name: &'static str)
        ensures
            name@ == self.line(),
    {
        match *self {
            Scene::Game { new_game: true } => "Game { new_game: true }",
            Scene::Game { new_game: false } => "Game { new_game: false }",
            Scene::MainMenu => "MainMenu",
            Scene::MapEditor => "MapEditor",
            Scene::Unknown => "Unknown",
        }
    }

    /// For a game, whether it is a new one.
    pub open spec fn newness(self) -> Option<bool> {
        match self {
            Scene::Game { new_game } => Some(new_game),
            _ => None,
        }
    }

    /// For a game, whether it is a new one.
    pub fn new_game(&self) -> (new_game: Option<bool>)
        ensures
            new_game == self.newness(),
    {
        match self {
            Scene::Game { new_game } => Some(*new_game),
            _ => None,
        }
    }
}

/// Whether a scene is being loaded.
///
/// `SceneLoader` loads every scene including the main menu, and outlives all of
/// them. That makes it the one thing that can be asked "did the world just
/// change?" rather than inferred from whether some object still reads: a freed
/// object keeps returning values until its memory is reused, and then returns
/// whatever now owns it.
#[derive(Clone, Copy)]
pub struct SceneLoad {
    pub class: Locatable,
    pub instance: u64,
    pub offset: u32,
    pub loading: bool,
    /// What the last load produced, or `Unknown` before one has been watched.
    pub loaded: Scene,
    /// Whether `loaded` came from watching a load happen, rather than from
    /// reading the loader's parameters on attach. Both give the same answer
    /// about *what* loaded; only the first means we were there for it.
    pub observed: bool,
}

/// How the scene loader is located, and where its `_isLoading` is. Not a DI
/// service, so it is validated through the asset loader it holds.
pub open spec fn loader_in(module: Module) -> Option<(Locatable, u32)> {
    match module.vtable("Timberborn.AssetSystem"@, "AssetLoader"@) {
        Some(asset_loader) => match (
            locatable(
                module,
                "Timberborn.SceneLoading",
                "SceneLoader",
                "_assetLoader"@,
                asset_loader,
            ),
            module.offset("Timberborn.SceneLoading"@, "SceneLoader"@, "_isLoading"@),
        ) {
            (Some(class), Some(offset)) => Some((class, offset)),
            _ => None,
        },
        None => None,
    }
}

/// Whether the reference field `field` of the object at `params` is set.
pub open spec fn is_set<M: Memory>(
    memory: &M,
    module: Module,
    params: u64,
    field: Seq<char>,
) -> bool {
    match offset_on(memory, module, params, field) {
        Some(offset) => field_pointer(memory, params, offset) is Some,
        None => false,
    }
}

/// The scene that the parameters at `params` describe.
pub open spec fn scene_of<M: Memory>(memory: &M, module: Module, params: u64) -> Scene {
    match pointer_at(memory, params) {
        Some(vtable) => if module.vtable(
            "Timberborn.MainMenuSceneLoading"@,
            "MainMenuSceneParameters"@,
        ) == Some(vtable) {
            Scene::MainMenu
        } else if module.vtable("Timberborn.MapEditorSceneLoading"@, "MapEditorSceneParameters"@)
            == Some(vtable) {
            Scene::MapEditor
        } else if module.vtable("Timberborn.GameSceneLoading"@, "GameSceneParameters"@) == Some(
            vtable,
        ) {
            Scene::Game {
                new_game: is_set(memory, module, params, "<NewGameConfiguration>k__BackingField"@)
                    && !is_set(memory, module, params, "<SaveReference>k__BackingField"@),
            }
        } else {
            Scene::Unknown
        },
        None => Scene::Unknown,
    }
}

impl SceneLoad {
    /// What is being loaded, as the parameters object the loader holds says.
    pub open spec fn incoming<M: Memory>(self, memory: &M, module: Module) -> Scene {
        match module.offset(self.class.image@, self.class.name@, "_sceneParameters"@) {
            Some(offset) => match field_pointer(memory, self.instance, offset) {
                Some(params) => scene_of(memory, module, params),
                None => Scene::Unknown,
            },
            None => Scene::Unknown,
        }
    }

    /// The loader's flag, where it reads.
    pub open spec fn flag<M: Memory>(self, memory: &M) -> Option<bool> {
        match u8_at(memory, plus(self.instance, self.offset as u64)) {
            Some(byte) => Some(byte != 0),
            None => None,
        }
    }

    /// With the flag as it was just read; a read that failed changes nothing.
    pub open spec fn told(self, flag: Option<bool>) -> Self {
        match flag {
            Some(loading) => SceneLoad { loading, ..self },
            None => self,
        }
    }

    /// Where to look for the scene loader, once every name in it resolves.
    pub fn target(module: &Module) -> (target: Option<(Locatable, u32)>)
        ensures
            target == loader_in(*module),
    {
        let asset_loader: u64 = match class_vtable(module, "Timberborn.AssetSystem", "AssetLoader") {
            Some(vtable) => vtable,
            None => {
                return None;
            },
        };
        let class = Locatable::with_validator(
            module,
            "Timberborn.SceneLoading",
            "SceneLoader",
            "_assetLoader",
            asset_loader,
        );
        let offset = field_offset(module, "Timberborn.SceneLoading", "SceneLoader", "_isLoading");
        match (class, offset) {
            (Some(class), Some(offset)) => Some((class, offset)),
            _ => None,
        }
    }

    /// Watches the loader found at `instance`.
    ///
    /// The loader is persistent, so its parameters still describe the last load
    /// even though we were not watching when it happened. Without this an attach
    /// starts from `Unknown`, and `Unknown` has to assume a game may be loaded
    /// -- which at the main menu is wrong.
    pub fn resolve<M: Memory>(
        memory: &M,
        module: &Module,
        class: Locatable,
        offset: u32,
        instance: u64,
        log: &mut Vec<Note>,
    ) -> (scene: Self)
        ensures
            scene.class == class,
            scene.instance == instance,
            scene.offset == offset,
            !scene.loading,
            !scene.observed,
            scene.loaded == scene.incoming(memory, *module),
            final(log)@ == old(log)@.push(
                Note::WatchingScenes { instance, loaded: scene.loaded },
            ),
    {
        let mut scene = SceneLoad {
            class,
            instance,
            offset,
            loading: false,
            loaded: Scene::Unknown,
            observed: false,
        };
        scene.loaded = scene.pending(memory, module);
        log.push(Note::WatchingScenes { instance, loaded: scene.loaded });
        scene
    }

    /// One byte per tick. `None` if the read failed, which happens while a scene
    /// is being torn down and means nothing on its own.
    ///
    /// Every observation is remembered, so whoever asks next sees an edge
    /// against what was last actually true.
    pub fn is_loading<M: Memory>(&mut self, memory: &M) -> (loading: Option<bool>)
        ensures
            loading == old(self).flag(memory),
            *final(self) == old(self).told(loading),
    {
        match read_u8(memory, offset_by(self.instance, self.offset as u64)) {
            Some(byte) => {
                self.loading = byte != 0;
                Some(byte != 0)
            },
            None => None,
        }
    }

    /// What is being loaded, read off the parameters object the loader holds.
    ///
    /// The parameters' class says which scene, and a game scene's parameters say
    /// whether it is a new game or a save. Sampled repeatedly while a load runs:
    /// on the tick the load starts, the field still holds the *previous* load's
    /// parameters.
    pub fn pending<M: Memory>(&self, memory: &M, module: &Module) -> (scene: Scene)
        ensures
            scene == self.incoming(memory, *module),
    {
        let params: u64 = match self.class.field(module, "_sceneParameters") {
            Some(offset) => match read_pointer(memory, self.instance, offset) {
                Some(params) => params,
                None => {
                    return Scene::Unknown;
                },
            },
            None => {
                return Scene::Unknown;
            },
        };
        let vtable: u64 = match read_pointer_raw(memory, params) {
            Some(vtable) => vtable,
            None => {
                return Scene::Unknown;
            },
        };
        if class_vtable(module, "Timberborn.MainMenuSceneLoading", "MainMenuSceneParameters")
            == Some(vtable) {
            return Scene::MainMenu;
        }
        if class_vtable(module, "Timberborn.MapEditorSceneLoading", "MapEditorSceneParameters")
            == Some(vtable) {
            return Scene::MapEditor;
        }
        if class_vtable(module, "Timberborn.GameSceneLoading", "GameSceneParameters") != Some(
            vtable,
        ) {
            return Scene::Unknown;
        }
        let fresh = Self::set(memory, module, params, "<NewGameConfiguration>k__BackingField");
        let saved = Self::set(memory, module, params, "<SaveReference>k__BackingField");
        Scene::Game { new_game: fresh && !saved }
    }

    fn set<M: Memory>(memory: &M, module: &Module, params: u64, field: &str) -> (set: bool)
        ensures
            set == is_set(memory, *module, params, field@),
    {
        match field_of(memory, module, params, field) {
            Some(offset) => read_pointer(memory, params, offset).is_some(),
            None => false,
        }
    }

    /// Whether a load has started since the last observation.
    pub fn started_loading<M: Memory>(&mut self, memory: &M) -> (started: bool)
        ensures
            started == (old(self).flag(memory) == Some(true) && !old(self).loading),
            *final(self) == old(self).told(old(self).flag(memory)),
    {
        let was_loading = self.loading;
        match self.is_loading(memory) {
            Some(loading) => loading && !was_loading,
            None => false,
        }
    }

    pub fn still_valid<M: Memory>(&self, memory: &M) -> (valid: bool)
        ensures
            valid == self.class.validator.admits(memory, self.instance),
    {
        self.class.still_valid(memory, self.instance)
    }
}

} // verus!
