//! What state a snapshot has to be a snapshot *of*.
//!
//! A test needs a game in a particular condition, not a particular file. Naming
//! the file makes the suite unreproducible: the capture lives on one machine,
//! and anyone else is left with a path that does not exist and no idea what
//! should have been at it.
//!
//! So a test asks for a [`Requirement`], a capture records which ones it
//! satisfies, and a missing one fails with the instructions for producing it.
use vstd::prelude::*;
use vstd::string::StringExecFns;

use crate::text::{chars_of, debug, debugged, owned, same};

verus! {

/// A game state that captures can be taken of.
pub struct Requirement {
    /// Recorded in the manifest as `satisfies <id>`.
    pub id: &'static str,
    /// What the state is, in one line.
    pub summary: &'static str,
    /// How to get the game there. Written for someone who has never done it.
    pub reproduce: Vec<&'static str>,
    /// For a recorded scenario: the single-instant state its **first** step is
    /// also a capture of, because the recording's own contract says where it
    /// has to be started from.
    pub begins_at: Option<&'static str>,
    /// For a recorded scenario: the single-instant state reached at its **last**
    /// step, tagged by the recorder when it sees the run end.
    pub ends_at: Option<&'static str>,
    /// The splitter's own words for *this* scenario's run being over, which is
    /// how the recorder knows which step to tag with
    /// [`ends_at`](Self::ends_at). Per scenario, because the two categories end
    /// on different things.
    pub ends_when: Option<&'static str>,
    /// Splitter settings the recorder must force before this scenario is
    /// played, as `(key, value)`.
    ///
    /// The recorder drives the real splitter, so it splits where a runner's
    /// splitter would -- including *not* splitting on a trigger that ships off.
    pub settings: Vec<(&'static str, bool)>,
}

/// What a [`Requirement`] says.
pub struct RequirementView {
    pub id: Seq<char>,
    pub summary: Seq<char>,
    pub reproduce: Seq<Seq<char>>,
    pub begins_at: Option<Seq<char>>,
    pub ends_at: Option<Seq<char>>,
    pub ends_when: Option<Seq<char>>,
    pub settings: Seq<(Seq<char>, bool)>,
}

/// A text that may be absent.
pub open spec fn text_of(text: Option<&'static str>) -> Option<Seq<char>> {
    match text {
        Some(text) => Some(text@),
        None => None,
    }
}

impl View for Requirement {
    type V = RequirementView;

    open spec fn view(&self) -> RequirementView {
        RequirementView {
            id: self.id@,
            summary: self.summary@,
            reproduce: self.reproduce@.map_values(|step: &'static str| step@),
            begins_at: text_of(self.begins_at),
            ends_at: text_of(self.ends_at),
            ends_when: text_of(self.ends_when),
            settings: self.settings@.map_values(|s: (&'static str, bool)| (s.0@, s.1)),
        }
    }
}

/// How many states there are.
pub const CATALOGUE: usize = 6;

/// Every state that can be asked for.
///
/// Adding one means adding it here first: an id that is not listed is refused, so
/// a typo cannot produce a capture nothing will ever find.
pub open spec fn catalogued(index: int) -> RequirementView {
    if index == 0 {
        RequirementView {
            id: "main-menu"@,
            summary: "the main menu, with no save loaded"@,
            reproduce: seq![
                "Start Timberborn and stop at the main menu; do not load or start a game."@,
                "Recording a `wonder-run` also produces one: its first step is this state."@,
            ],
            begins_at: None,
            ends_at: None,
            ends_when: None,
            settings: Seq::empty(),
        }
    } else if index == 1 {
        RequirementView {
            id: "run-finished"@,
            summary: "a finished wonder run, Congratulations screen already shown"@,
            reproduce: seq![
                "Start a new game as either faction."@,
                "Build every split-triggering building: Forester, Gear Workshop, Tapper's Shack, the faction's advanced science building (Observatory for Folktails, Numbercruncher for Iron Teeth), Smelter and Wood Workshop."@,
                "Unlock the wonder with science, then activate it."@,
                "Wait out the countdown until the Congratulations screen appears."@,
                "Developer mode is a legitimate way to get here quickly -- the splitter reads the same state either way, and the day counter will simply be low."@,
                "Recording a `wonder-run` also produces one: its last step is this state."@,
            ],
            begins_at: None,
            ends_at: None,
            ends_when: None,
            settings: Seq::empty(),
        }
    } else if index == 2 {
        RequirementView {
            id: "first-bot"@,
            summary: "a settlement that has produced its first Timberbot"@,
            reproduce: seq![
                "Start a new game as either faction."@,
                "Build a Bot Part Factory and a Bot Assembler, and assemble one bot."@,
                "The developer console is a legitimate way to get there: it can grant the science, the buildings and the parts, and the splitter reads the same state either way."@,
                "Stop once the population overlay shows a bot count beside the adults and children -- that is the flag this state is of."@,
            ],
            begins_at: None,
            ends_at: None,
            ends_when: None,
            settings: Seq::empty(),
        }
    } else if index == 3 {
        RequirementView {
            id: "wonder-run"@,
            summary: "a whole wonder run recorded as it was played, split by split"@,
            reproduce: seq![
                "Start the game and stop at the main menu -- do not load a save yet."@,
                "Start `tb-record --state wonder-run` and leave it running."@,
                "Start a new game and play it through: every split-triggering building, then the wonder unlocked and activated, then the Congratulations screen."@,
                "The recorder captures whenever the splitter starts, splits or resets, so nothing needs doing at each split. Stop it with Ctrl-C once the run is over."@,
                "Developer mode is a legitimate way to get through the run quickly."@,
            ],
            begins_at: Some("main-menu"@),
            ends_at: Some("run-finished"@),
            ends_when: Some("Run end: Congratulations screen."@),
            settings: Seq::empty(),
        }
    } else if index == 4 {
        RequirementView {
            id: "timberbot-run"@,
            summary: "a whole Timberbot run recorded as it was played, split by split"@,
            reproduce: seq![
                "Start the game and stop at the main menu -- do not load a save yet."@,
                "Start `tb-record --state timberbot-run` and leave it running. It turns the Timberbot triggers on for you; they ship off, and a recording made without them would capture the start and the Gear Workshop and nothing else."@,
                "Start a new game and play it through: **build and finish** a Gear Workshop, a Smelter and a Bot Part Factory, then a Bot Assembler, and assemble one bot."@,
                "Developer mode is a legitimate way to get through it quickly -- grant the science and the resources freely. Do **not** shortcut the three buildings by consoling their goods in: they are the splits, and matching their template names against real memory is half of what this recording is for. The `first-bot` capture was taken that way and walks 5252 entities for none of them."@,
                "Stop the recorder with Ctrl-C once the bot is out."@,
            ],
            begins_at: Some("main-menu"@),
            ends_at: Some("first-bot"@),
            ends_when: Some("Run end: the first Timberbot was created."@),
            settings: seq![("smelter"@, true), ("bot_part_factory"@, true), ("first_bot"@, true)],
        }
    } else {
        RequirementView {
            id: "two-games"@,
            summary: "two games started in one process, so the second scene load is on record"@,
            reproduce: seq![
                "Start the game and stop at the main menu -- do not load a save yet."@,
                "Start `tb-record --state two-games` and leave it running."@,
                "Start a new game and wait for the overlay to come up. Nothing else needs building."@,
                "Quit to the main menu, then start a second new game and again wait for the overlay."@,
                "Stop the recorder with Ctrl-C once the second game is up."@,
                "Developer mode is fine; nothing here depends on what is built."@,
            ],
            begins_at: Some("main-menu"@),
            ends_at: None,
            ends_when: None,
            settings: Seq::empty(),
        }
    }
}

/// A state that can be asked for.
pub fn requirement(index: usize) -> (requirement: Requirement)
    requires
        index < CATALOGUE,
    ensures
        requirement@ == catalogued(index as int),
{
    let requirement = match index {
        0 => Requirement {
            id: "main-menu",
            summary: "the main menu, with no save loaded",
            reproduce: vec![
                "Start Timberborn and stop at the main menu; do not load or start a game.",
                "Recording a `wonder-run` also produces one: its first step is this state.",
            ],
            begins_at: None,
            ends_at: None,
            ends_when: None,
            settings: Vec::new(),
        },
        1 => Requirement {
            id: "run-finished",
            summary: "a finished wonder run, Congratulations screen already shown",
            reproduce: vec![
                "Start a new game as either faction.",
                "Build every split-triggering building: Forester, Gear Workshop, Tapper's Shack, the faction's advanced science building (Observatory for Folktails, Numbercruncher for Iron Teeth), Smelter and Wood Workshop.",
                "Unlock the wonder with science, then activate it.",
                "Wait out the countdown until the Congratulations screen appears.",
                "Developer mode is a legitimate way to get here quickly -- the splitter reads the same state either way, and the day counter will simply be low.",
                "Recording a `wonder-run` also produces one: its last step is this state.",
            ],
            begins_at: None,
            ends_at: None,
            ends_when: None,
            settings: Vec::new(),
        },
        2 => Requirement {
            id: "first-bot",
            summary: "a settlement that has produced its first Timberbot",
            reproduce: vec![
                "Start a new game as either faction.",
                "Build a Bot Part Factory and a Bot Assembler, and assemble one bot.",
                "The developer console is a legitimate way to get there: it can grant the science, the buildings and the parts, and the splitter reads the same state either way.",
                "Stop once the population overlay shows a bot count beside the adults and children -- that is the flag this state is of.",
            ],
            begins_at: None,
            ends_at: None,
            ends_when: None,
            settings: Vec::new(),
        },
        3 => Requirement {
            id: "wonder-run",
            summary: "a whole wonder run recorded as it was played, split by split",
            reproduce: vec![
                "Start the game and stop at the main menu -- do not load a save yet.",
                "Start `tb-record --state wonder-run` and leave it running.",
                "Start a new game and play it through: every split-triggering building, then the wonder unlocked and activated, then the Congratulations screen.",
                "The recorder captures whenever the splitter starts, splits or resets, so nothing needs doing at each split. Stop it with Ctrl-C once the run is over.",
                "Developer mode is a legitimate way to get through the run quickly.",
            ],
            // A recording is started at the menu and stopped after the run ends, so
            // it holds both of the single instants the other two states name.
            begins_at: Some("main-menu"),
            ends_at: Some("run-finished"),
            ends_when: Some("Run end: Congratulations screen."),
            settings: Vec::new(),
        },
        4 => Requirement {
            id: "timberbot-run",
            summary: "a whole Timberbot run recorded as it was played, split by split",
            reproduce: vec![
                "Start the game and stop at the main menu -- do not load a save yet.",
                "Start `tb-record --state timberbot-run` and leave it running. It turns the Timberbot triggers on for you; they ship off, and a recording made without them would capture the start and the Gear Workshop and nothing else.",
                "Start a new game and play it through: **build and finish** a Gear Workshop, a Smelter and a Bot Part Factory, then a Bot Assembler, and assemble one bot.",
                "Developer mode is a legitimate way to get through it quickly -- grant the science and the resources freely. Do **not** shortcut the three buildings by consoling their goods in: they are the splits, and matching their template names against real memory is half of what this recording is for. The `first-bot` capture was taken that way and walks 5252 entities for none of them.",
                "Stop the recorder with Ctrl-C once the bot is out.",
            ],
            // The three triggers this route splits on, which ship off so that a
            // wonder run on the stock defaults does not split twice on the Smelter.
            begins_at: Some("main-menu"),
            ends_at: Some("first-bot"),
            ends_when: Some("Run end: the first Timberbot was created."),
            settings: vec![("smelter", true), ("bot_part_factory", true), ("first_bot", true)],
        },
        _ => Requirement {
            id: "two-games",
            summary: "two games started in one process, so the second scene load is on record",
            reproduce: vec![
                "Start the game and stop at the main menu -- do not load a save yet.",
                "Start `tb-record --state two-games` and leave it running.",
                "Start a new game and wait for the overlay to come up. Nothing else needs building.",
                "Quit to the main menu, then start a second new game and again wait for the overlay.",
                "Stop the recorder with Ctrl-C once the second game is up.",
                "Developer mode is fine; nothing here depends on what is built.",
            ],
            // No run is played, so nothing tags an end state.
            begins_at: Some("main-menu"),
            ends_at: None,
            ends_when: None,
            settings: Vec::new(),
        },
    };
    assert(requirement@.reproduce =~= catalogued(index as int).reproduce);
    assert(requirement@.settings =~= catalogued(index as int).settings);
    requirement
}

/// The first state, from `i` on, that goes by `id`.
pub open spec fn state_from(id: Seq<char>, i: int) -> Option<RequirementView>
    decreases CATALOGUE - i,
{
    if i >= CATALOGUE {
        None
    } else if catalogued(i).id == id {
        Some(catalogued(i))
    } else {
        state_from(id, i + 1)
    }
}

/// Looks a requirement up by id.
pub fn get(id: &str) -> (requirement: Option<Requirement>)
    ensures
        state_from(id@, 0) == match requirement {
            Some(requirement) => Some(requirement@),
            None => None,
        },
{
    let mut i: usize = 0;
    while i < CATALOGUE
        invariant
            i <= CATALOGUE,
            state_from(id@, 0) == state_from(id@, i as int),
        decreases CATALOGUE - i,
    {
        let requirement = requirement(i);
        if same(requirement.id, id) {
            return Some(requirement);
        }
        i = i + 1;
    }
    None
}

/// `text`, with spaces behind it up to `width` characters.
pub open spec fn padded(text: Seq<char>, width: nat) -> Seq<char> {
    if text.len() >= width {
        text
    } else {
        text + Seq::new((width - text.len()) as nat, |i: int| ' ')
    }
}

fn push_padded(out: &mut String, text: &str, width: usize)
    ensures
        final(out)@ == old(out)@ + padded(text@, width as nat),
{
    out.append(text);
    let mut n: usize = chars_of(text).len();
    let ghost len = text@.len();
    let ghost begun = out@;
    while n < width
        invariant
            len <= n,
            n <= width || n == len,
            out@ == begun + Seq::new((n - len) as nat, |i: int| ' '),
        decreases width - n,
    {
        out.push(' ');
        n = n + 1;
        assert(out@ =~= begun + Seq::new((n - len) as nat, |i: int| ' '));
    }
    assert(out@ =~= old(out)@ + padded(text@, width as nat));
}

/// The first `n` states, one to a line.
pub open spec fn listed(n: int) -> Seq<char>
    decreases n,
{
    if n <= 0 {
        Seq::empty()
    } else {
        listed(n - 1) + (if n > 1 {
            "\n  "@
        } else {
            "  "@
        }) + padded(catalogued(n - 1).id, 14) + " "@ + catalogued(n - 1).summary
    }
}

/// The catalogue, for an error message listing what is valid.
pub fn listing() -> (text: String)
    ensures
        text@ == listed(CATALOGUE as int),
{
    let mut text = String::new();
    let mut i: usize = 0;
    while i < CATALOGUE
        invariant
            i <= CATALOGUE,
            text@ == listed(i as int),
        decreases CATALOGUE - i,
    {
        let requirement = requirement(i);
        text.append(
            if i > 0 {
                "\n  "
            } else {
                "  "
            },
        );
        push_padded(&mut text, requirement.id, 14);
        text.append(" ");
        text.append(requirement.summary);
        i = i + 1;
    }
    text
}

/// The first `n` steps, one to a line.
pub open spec fn steps_text(steps: Seq<Seq<char>>, n: int) -> Seq<char>
    decreases n,
{
    if n <= 0 {
        Seq::empty()
    } else {
        steps_text(steps, n - 1) + (if n > 1 {
            "\n  - "@
        } else {
            "  - "@
        }) + steps[n - 1]
    }
}

/// Puts the steps behind `text`, one to a line.
pub(crate) fn push_steps(text: &mut String, steps: &Vec<&'static str>)
    ensures
        final(text)@ == old(text)@ + steps_text(
            steps@.map_values(|step: &'static str| step@),
            steps@.len() as int,
        ),
{
    let ghost begun = text@;
    let ghost said = steps@.map_values(|step: &'static str| step@);
    let mut i: usize = 0;
    assert(text@ =~= begun + steps_text(said, 0));
    while i < steps.len()
        invariant
            i <= steps@.len(),
            said == steps@.map_values(|step: &'static str| step@),
            text@ == begun + steps_text(said, i as int),
        decreases steps@.len() - i,
    {
        text.append(
            if i > 0 {
                "\n  - "
            } else {
                "  - "
            },
        );
        text.append(steps[i]);
        assert(said[i as int] == steps@[i as int]@);
        assert(text@ =~= begun + steps_text(said, i + 1));
        i = i + 1;
    }
}

/// The instructions for a state.
///
/// A recorded scenario is made while the game is played, and its own steps say
/// so, so it gets no trailing capture line.
pub open spec fn instructed(state: RequirementView) -> Seq<char> {
    "No snapshot satisfies "@ + debugged(state.id) + " ("@ + state.summary + ").\n\nTo make one:\n"@
        + steps_text(state.reproduce, state.reproduce.len() as int) + (if state.begins_at is Some {
        Seq::empty()
    } else {
        "\n  - then, with the game left in that state:\n      tb-dump --freeze --state "@ + state.id
            + " --notes '<what you did>'"@
    }) + "\n\nSee snapshots/README.md."@
}

impl Requirement {
    /// The instructions, as a message for a test that could not find a capture.
    pub fn instructions(&self) -> (text: String)
        ensures
            text@ == instructed(self@),
    {
        let mut text = owned("No snapshot satisfies ");
        text.append(debug(self.id).as_str());
        text.append(" (");
        text.append(self.summary);
        text.append(").\n\nTo make one:\n");
        push_steps(&mut text, &self.reproduce);
        if self.begins_at.is_none() {
            text.append(
                "\n  - then, with the game left in that state:\n      tb-dump --freeze --state ",
            );
            text.append(self.id);
            text.append(" --notes '<what you did>'");
        }
        text.append("\n\nSee snapshots/README.md.");
        assert(text@ =~= instructed(self@));
        text
    }
}

} // verus!
