//! What is said, and that it says what it is about.
use vstd::prelude::*;

use crate::buildings::Split;
use crate::note::{building_name, finished_line, finished_names, Note};
use crate::requirement::catalogued;
use crate::run_start::state_name;
use crate::scene::Scene;
use crate::text::{decimal_text, hex_text, occurs, stands_at};

verus! {

/// What stands between two texts occurs in all of it.
proof fn lemma_between(front: Seq<char>, part: Seq<char>, back: Seq<char>)
    ensures
        occurs(front + part + back, part),
{
    let whole = front + part + back;
    let at = front.len() as int;
    assert(whole.subrange(at, at + part.len()) =~= part);
    assert(stands_at(whole, part, at));
}

/// What occurs in a text occurs in any longer one.
proof fn lemma_longer(whole: Seq<char>, part: Seq<char>, more: Seq<char>)
    requires
        occurs(whole, part),
    ensures
        occurs(whole + more, part),
{
    let at = choose|at: int| #[trigger] stands_at(whole, part, at);
    assert((whole + more).subrange(at, at + part.len()) =~= whole.subrange(at, at + part.len()));
    assert(stands_at(whole + more, part, at));
}

proof fn lemma_alone(front: Seq<char>, part: Seq<char>)
    ensures
        occurs(front + part, part),
{
    lemma_between(front, part, Seq::empty());
    assert(front + part + Seq::<char>::empty() =~= front + part);
}

/// A note of where something is gives the address.
pub proof fn a_note_gives_its_address(
    address: u64,
    name: &'static str,
    loaded: Scene,
    is: bool,
)
    ensures
        occurs(Note::ContainerAt { address }.line(), hex_text(address as int)),
        occurs(Note::ServiceAt { name, address }.line(), hex_text(address as int)),
        occurs(Note::ServiceAt { name, address }.line(), name@),
        occurs(
            Note::WatchingScenes { instance: address, loaded }.line(),
            hex_text(address as int),
        ),
        occurs(Note::WatchingScenes { instance: address, loaded }.line(), loaded.line()),
        occurs(Note::WatchingRunStart { instance: address }.line(), hex_text(address as int)),
        occurs(
            Note::WatchingUnlocks { set: address, unlocked: is }.line(),
            hex_text(address as int),
        ),
        occurs(
            Note::WatchingCompletion { instance: address, already: is }.line(),
            hex_text(address as int),
        ),
{
    let hex = hex_text(address as int);
    lemma_between("The game's singleton container is at "@, hex, "."@);
    let found = "Found "@ + name@ + " at "@;
    lemma_between(found, hex, "."@);
    lemma_between("Found "@, name@, " at "@);
    lemma_longer(found, name@, hex);
    lemma_longer(found + hex, name@, "."@);
    let scenes = "Watching scene loads at "@ + hex + ". Last load: "@;
    lemma_between("Watching scene loads at "@, hex, ". Last load: "@);
    lemma_longer(scenes, hex, loaded.line());
    lemma_longer(scenes + loaded.line(), hex, "."@);
    lemma_between(scenes, loaded.line(), "."@);
    lemma_between("Watching run start at "@, hex, "."@);
    let yes = if is {
        "true"@
    } else {
        "false"@
    };
    let unlocks = ". Wonder already unlocked in this save: "@;
    lemma_between("Watching building unlocks at "@, hex, unlocks);
    lemma_longer("Watching building unlocks at "@ + hex + unlocks, hex, yes);
    lemma_longer("Watching building unlocks at "@ + hex + unlocks + yes, hex, "."@);
    let ending = " (run end per the rules). Already finished in this save: "@;
    lemma_between("Watching wonder completion at "@, hex, ending);
    lemma_longer("Watching wonder completion at "@ + hex + ending, hex, yes);
    lemma_longer("Watching wonder completion at "@ + hex + ending + yes, hex, "."@);
}

/// A note of a number gives it.
pub proof fn a_note_gives_its_number(
    n: i32,
    pid: u64,
    name: &'static str,
    watched: usize,
    finished: [bool; 6],
)
    ensures
        occurs(Note::DayNumber { day: n }.line(), decimal_text(n as int)),
        occurs(Note::InitializationState { state: n }.line(), decimal_text(n as int)),
        occurs(Note::InitializationState { state: n }.line(), state_name(n)),
        occurs(Note::OverlayInNamedSave { len: n }.line(), decimal_text(n as int)),
        occurs(Note::WalkStarting { total: n }.line(), decimal_text(n as int)),
        occurs(
            Note::WatchingEntities { total: n, watched, finished }.line(),
            decimal_text(n as int),
        ),
        occurs(
            Note::WatchingEntities { total: n, watched, finished }.line(),
            decimal_text(watched as int),
        ),
        occurs(Note::AttachedToPid { pid, name }.line(), decimal_text(pid as int)),
        occurs(Note::AttachedToPid { pid, name }.line(), name@),
        occurs(Note::AttachedTo { name }.line(), name@),
        occurs(Note::TableAnswered { name, count: watched }.line(), decimal_text(watched as int)),
        occurs(Note::TableAnswered { name, count: watched }.line(), name@),
{
    let number = decimal_text(n as int);
    lemma_alone("DayNumber = "@, number);
    lemma_between("initializationState = "@, number, state_name(n));
    lemma_alone("initializationState = "@ + number, state_name(n));
    lemma_between(
        "Overlay shown, but this is a loaded save (SourceFileName is "@,
        number,
        " chars). Not a run start."@,
    );
    lemma_between("[entities] opening walk starting over "@, number, " entities."@);
    let many = decimal_text(watched as int);
    let names = finished_line(finished@);
    let tail = " tracked buildings. Already finished in this save: "@;
    lemma_between("Watching "@, number, " entities for "@);
    let head = "Watching "@ + number + " entities for "@;
    lemma_longer(head, number, many);
    lemma_longer(head + many, number, tail);
    lemma_longer(head + many + tail, number, names);
    lemma_longer(head + many + tail + names, number, "."@);
    lemma_between(head, many, tail);
    lemma_longer(head + many + tail, many, names);
    lemma_longer(head + many + tail + names, many, "."@);
    let process = decimal_text(pid as int);
    let reports = ", which reports as \""@;
    let but = "\" but has Timberborn.exe mapped."@;
    lemma_between("Attached to pid "@, process, reports);
    let front = "Attached to pid "@ + process + reports;
    lemma_longer(front, process, name@);
    lemma_longer(front + name@, process, but);
    lemma_between(front, name@, but);
    lemma_between("Attached to "@, name@, "."@);
    lemma_between("[table] "@, name@, ": "@);
    let answered = "[table] "@ + name@ + ": "@;
    lemma_longer(answered, name@, many);
    lemma_longer(answered + many, name@, " live instances."@);
    lemma_between(answered, many, " live instances."@);
}

proof fn lemma_grouped(a: Seq<char>, b: Seq<char>, c: Seq<char>)
    ensures
        a + b + c == a + (b + c),
{
    assert(a + b + c =~= a + (b + c));
}

/// Three parts with words in front of, between and behind them all occur, each
/// with the words right in front of it.
proof fn lemma_three(
    a: Seq<char>,
    one: Seq<char>,
    b: Seq<char>,
    two: Seq<char>,
    c: Seq<char>,
    three: Seq<char>,
    d: Seq<char>,
)
    ensures
        occurs(a + one + b + two + c + three + d, a + one),
        occurs(a + one + b + two + c + three + d, b + two),
        occurs(a + one + b + two + c + three + d, c + three),
{
    let x = a + one;
    let y = x + b + two;
    let z = y + c + three;
    lemma_alone(Seq::empty(), x);
    assert(Seq::<char>::empty() + x =~= x);
    lemma_longer(x, x, b);
    lemma_longer(x + b, x, two);
    lemma_longer(y, x, c);
    lemma_longer(y + c, x, three);
    lemma_longer(z, x, d);
    lemma_grouped(x, b, two);
    lemma_alone(x, b + two);
    lemma_longer(y, b + two, c);
    lemma_longer(y + c, b + two, three);
    lemma_longer(z, b + two, d);
    lemma_grouped(y, c, three);
    lemma_alone(y, c + three);
    lemma_longer(z, c + three, d);
}

/// A note of the table gives where it is and how large, in whole KiB.
pub proof fn a_note_of_the_table_gives_its_place(
    base: u64,
    size: u64,
    was: u64,
    headers: u32,
)
    ensures
        occurs(
            Note::TableFound { base, size, headers }.line(),
            "[table] found at "@ + hex_text(base as int),
        ),
        occurs(
            Note::TableFound { base, size, headers }.line(),
            ", "@ + decimal_text((size / 1024) as int),
        ),
        occurs(
            Note::TableFound { base, size, headers }.line(),
            " KiB, "@ + decimal_text(headers as int),
        ),
        occurs(
            Note::TableResized { base, size, was }.line(),
            "[table] "@ + hex_text(base as int),
        ),
        occurs(
            Note::TableResized { base, size, was }.line(),
            " is now "@ + decimal_text((size / 1024) as int),
        ),
        occurs(
            Note::TableResized { base, size, was }.line(),
            " KiB, was "@ + decimal_text((was / 1024) as int),
        ),
{
    let hex = hex_text(base as int);
    let kib = decimal_text((size / 1024) as int);
    lemma_three(
        "[table] found at "@,
        hex,
        ", "@,
        kib,
        " KiB, "@,
        decimal_text(headers as int),
        " object headers in it."@,
    );
    lemma_three(
        "[table] "@,
        hex,
        " is now "@,
        kib,
        " KiB, was "@,
        decimal_text((was / 1024) as int),
        " KiB."@,
    );
}

/// A split is called by its own name, whether it is asked for or not, and no two
/// are called the same.
pub proof fn a_split_is_called_by_its_name(split: Split, other: Split)
    ensures
        occurs(Note::BuildingSplit { split }.line(), split.name()),
        occurs(Note::BuildingNoSplit { split }.line(), split.name()),
        split.name() == other.name() <==> split == other,
{
    reveal_strlit("Forester");
    reveal_strlit("Gear Workshop");
    reveal_strlit("Tapper's Shack");
    reveal_strlit("Observatory / Numbercruncher");
    reveal_strlit("Smelter + Wood Workshop");
    lemma_between("Split: "@, split.name(), " finished."@);
    lemma_between(Seq::empty(), split.name(), " finished, but not splitting."@);
    assert(Seq::<char>::empty() + split.name() + " finished, but not splitting."@ =~= split.name()
        + " finished, but not splitting."@);
    assert(split.name().len() == other.name().len() ==> split == other);
}

/// Every building that stands finished is named.
pub proof fn every_finished_building_is_named(finished: Seq<bool>, n: int, slot: int)
    requires
        0 <= slot < n <= 6,
        finished.len() == 6,
        finished[slot],
    ensures
        occurs(finished_names(finished, n), building_name(slot)),
    decreases n,
{
    let rest = finished_names(finished, n - 1);
    let name = building_name(n - 1);
    if slot < n - 1 {
        every_finished_building_is_named(finished, n - 1, slot);
        if finished[n - 1] {
            if rest.len() > 0 {
                lemma_longer(rest, building_name(slot), ", "@);
                lemma_longer(rest + ", "@, building_name(slot), name);
            } else {
                lemma_named(slot);
                let at = choose|at: int| #[trigger] stands_at(rest, building_name(slot), at);
                assert(false);
            }
        }
    } else if rest.len() == 0 {
        lemma_alone(Seq::empty(), name);
        assert(Seq::<char>::empty() + name =~= name);
    } else {
        lemma_alone(rest + ", "@, name);
    }
}

proof fn lemma_named(slot: int)
    ensures
        building_name(slot).len() > 0,
{
    reveal_strlit("Forester");
    reveal_strlit("Gear Workshop");
    reveal_strlit("Tapper's Shack");
    reveal_strlit("Observatory / Numbercruncher");
    reveal_strlit("Smelter");
    reveal_strlit("Wood Workshop");
}

/// A whole run's recording ends with what is said at the run end.
pub proof fn a_recording_ends_with_the_run()
    ensures
        exists|i: int|
            0 <= i < 6 && (#[trigger] catalogued(i)).ends_when is Some && occurs(
                Note::RunEnd.line(),
                catalogued(i).ends_when->0,
            ),
{
    reveal_strlit("Run end: Congratulations screen.");
    reveal_strlit("Run end: Congratulations screen. Splitting.");
    let phrase = "Run end: Congratulations screen."@;
    let line = Note::RunEnd.line();
    assert(line.subrange(0, phrase.len() as int) =~= phrase);
    assert(stands_at(line, phrase, 0));
    assert(catalogued(3).ends_when == Some(phrase));
}

} // verus!
