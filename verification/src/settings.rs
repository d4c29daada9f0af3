//! Which splits are enabled.
use vstd::prelude::*;

use crate::buildings::Split;

verus! {

/// Which splits are enabled. The advanced science split covers both factions'
/// buildings, and the run end is named for the Congratulations screen.
#[derive(Clone, Copy)]
pub struct Settings {
    /// Start the run when the overlay appears after naming the settlement
    pub start: bool,
    /// Split when the Forester is finished
    pub forester: bool,
    /// Split when the Gear Workshop is finished
    pub gear_workshop: bool,
    /// Split when the Tapper's Shack is finished
    pub tappers_shack: bool,
    /// Split when the faction's advanced science building is finished
    ///
    /// The Observatory for Folktails, the Numbercruncher for Iron Teeth. The
    /// two factions are separate categories, so only one can ever fire in a
    /// given run.
    pub advanced_science: bool,
    /// Split when both the Smelter and Wood Workshop are finished
    pub smelter_woodworkshop: bool,
    /// Split when the wonder is unlocked with science
    pub unlock_wonder: bool,
    /// Split when the Congratulations screen appears
    ///
    /// The category rules end the run here, which is roughly 0.5 in-game hours
    /// after the wonder is activated -- not at activation itself.
    pub congratulations_screen: bool,
}

impl Default for Settings {
    /// Every split on.
    fn default() -> (settings: Self)
        ensures
            settings.start,
            settings.forester,
            settings.gear_workshop,
            settings.tappers_shack,
            settings.advanced_science,
            settings.smelter_woodworkshop,
            settings.unlock_wonder,
            settings.congratulations_screen,
    {
        Settings {
            start: true,
            forester: true,
            gear_workshop: true,
            tappers_shack: true,
            advanced_science: true,
            smelter_woodworkshop: true,
            unlock_wonder: true,
            congratulations_screen: true,
        }
    }
}

impl Settings {
    /// Whether a building split is enabled.
    pub open spec fn allows(self, split: Split) -> bool {
        match split {
            Split::Forester => self.forester,
            Split::GearWorkshop => self.gear_workshop,
            Split::TappersShack => self.tappers_shack,
            Split::AdvancedScience => self.advanced_science,
            Split::SmelterAndWoodWorkshop => self.smelter_woodworkshop,
        }
    }

    /// Whether a building split is enabled.
    pub fn enabled(&self, split: Split) -> (enabled: bool)
        ensures
            enabled == self.allows(split),
    {
        match split {
            Split::Forester => self.forester,
            Split::GearWorkshop => self.gear_workshop,
            Split::TappersShack => self.tappers_shack,
            Split::AdvancedScience => self.advanced_science,
            Split::SmelterAndWoodWorkshop => self.smelter_woodworkshop,
        }
    }
}

/// How many settings are registered.
pub const DECLARED: usize = 12;

/// The settings the splitter registers, in order: each one's key, and whether it
/// is on by default.
///
/// The defaults are the whole of the interaction between the two routes: the
/// wonder's splits are on, and the Timberbot's off. Two splits out of one
/// Smelter is what shipping both on would give.
pub open spec fn declaration(index: int) -> (Seq<char>, bool) {
    if index == 0 {
        ("start"@, true)
    } else if index == 1 {
        ("forester"@, true)
    } else if index == 2 {
        ("gear_workshop"@, true)
    } else if index == 3 {
        ("tappers_shack"@, true)
    } else if index == 4 {
        ("advanced_science"@, true)
    } else if index == 5 {
        ("smelter_woodworkshop"@, true)
    } else if index == 6 {
        ("unlock_wonder"@, true)
    } else if index == 7 {
        ("congratulations_screen"@, true)
    } else if index == 8 {
        ("smelter"@, false)
    } else if index == 9 {
        ("bot_part_factory"@, false)
    } else if index == 10 {
        ("first_bot"@, false)
    } else {
        ("wellbeing_15"@, false)
    }
}

/// A setting the splitter registers: its key, and whether it is on by default.
pub fn declared(index: usize) -> (setting: (&'static str, bool))
    requires
        index < DECLARED,
    ensures
        (setting.0@, setting.1) == declaration(index as int),
{
    match index {
        0 => ("start", true),
        1 => ("forester", true),
        2 => ("gear_workshop", true),
        3 => ("tappers_shack", true),
        4 => ("advanced_science", true),
        5 => ("smelter_woodworkshop", true),
        6 => ("unlock_wonder", true),
        7 => ("congratulations_screen", true),
        8 => ("smelter", false),
        9 => ("bot_part_factory", false),
        10 => ("first_bot", false),
        _ => ("wellbeing_15", false),
    }
}

} // verus!
