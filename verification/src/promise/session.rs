//! From a game looked for to a game watched, and back.
use vstd::prelude::*;

use crate::attach::{next_candidate, Attach, Place, Reply, Request};
use crate::locate::Locate;
use crate::memory::Memory;
use crate::note::{Action, Note, Warning};
use crate::promise::reading::{has_byte, has_number, has_word, what_is_there_is_read};
use crate::promise::scene::the_loader_says_when_it_loads;
use crate::singletons::{layout_of, Search};
use crate::splitter::{Phase, Scout, Session, Splitter};
use crate::text::occurs;
use crate::timer::TimerState;
use crate::watch::{Sight, Stage, Watch};

verus! {

/// Every round asks for the game by its exact names, one behind the other, and
/// then for what goes by the name that others have too; a process that has an
/// exact name is the game.
pub proof fn a_round_asks_by_every_name(
    attach: Attach,
    reply: Reply,
    after: Attach,
    request: Request,
    said: Seq<Action>,
)
    requires
        attach.wf(),
        attach.advanced(reply, after, request, said),
    ensures
        attach.place is Rest ==> (request matches Request::Attach(name) && name@
            == "Timberborn.exe"@) && after.place == Place::Name(0),
        attach.place == Place::Name(0) && reply is Refused ==> (request matches Request::Attach(
            name,
        ) && name@ == "Timberborn.x86_64"@) && after.place == Place::Name(1),
        attach.place == Place::Name(1) && reply is Refused ==> (request matches Request::List(name)
            && name@ == "Unity Main Thre"@) && after.place is List,
        attach.place is Name && reply is Attached ==> request is Run,
        request is Run ==> attach.place is Done || reply is Attached || reply is Candidate,
{
}

/// Whether candidate `k` is the first from `from` on that is not ruled out.
pub open spec fn is_next(pids: Seq<u64>, ruled_out: Seq<u64>, from: int, k: int) -> bool {
    &&& from <= k < pids.len()
    &&& !ruled_out.contains(pids[k])
    &&& are_ruled_out(pids, ruled_out, from, k)
}

/// Whether the candidates from `from` up to `to` are ruled out.
pub open spec fn are_ruled_out(pids: Seq<u64>, ruled_out: Seq<u64>, from: int, to: int) -> bool {
    forall|j: int| from <= j < to && j < pids.len() ==> ruled_out.contains(#[trigger] pids[j])
}

proof fn lemma_next(pids: Seq<u64>, ruled_out: Seq<u64>, i: int)
    requires
        0 <= i,
    ensures
        ({
            let k = next_candidate(pids, ruled_out, i);
            &&& k < pids.len() ==> is_next(pids, ruled_out, i, k)
            &&& k >= pids.len() ==> are_ruled_out(pids, ruled_out, i, pids.len() as int)
        }),
    decreases pids.len() - i,
{
    if i < pids.len() && ruled_out.contains(pids[i]) {
        lemma_next(pids, ruled_out, i + 1);
    }
}

/// Of what goes by the name that others have too, each process is asked for in
/// turn, but for those already ruled out; none is passed over.
pub proof fn no_candidate_is_passed_over(
    attach: Attach,
    pids: Vec<u64>,
    after: Attach,
    request: Request,
    said: Seq<Action>,
)
    requires
        attach.place is List,
        attach.advanced(Reply::Pids(pids), after, request, said),
    ensures
        request matches Request::AttachPid(pid) ==> exists|k: int| #[trigger]
            is_next(pids@, attach.ruled_out@, 0, k) && pids@[k] == pid,
        request !is AttachPid ==> request is NextTick && are_ruled_out(
            pids@,
            attach.ruled_out@,
            0,
            pids@.len() as int,
        ),
{
    lemma_next(pids@, attach.ruled_out@, 0);
}

/// A candidate is the game where it has the game's module or its path names it;
/// any other is ruled out, and the next is asked for.
pub proof fn a_candidate_is_the_game_or_ruled_out(
    attach: Attach,
    has_module: bool,
    path: Option<String>,
    pids: Vec<u64>,
    i: usize,
    after: Attach,
    request: Request,
    said: Seq<Action>,
)
    requires
        attach.place == Place::Pid(pids, i),
        attach.wf(),
        attach.advanced(Reply::Candidate { has_module, path }, after, request, said),
    ensures
        request is Run <==> has_module || (path matches Some(path) && occurs(
            path@,
            "Timberborn"@,
        )),
        request matches Request::AttachPid(pid) ==> {
            &&& after.ruled_out@ == attach.ruled_out@.push(pids@[i as int])
            &&& exists|k: int| #[trigger]
                is_next(pids@, after.ruled_out@, i + 1, k) && pids@[k] == pid
        },
        request is NextTick ==> {
            &&& are_ruled_out(
                pids@,
                attach.ruled_out@.push(pids@[i as int]),
                i + 1,
                pids@.len() as int,
            )
            &&& after.ruled_out@ == Seq::<u64>::empty() || after.ruled_out@
                == attach.ruled_out@.push(pids@[i as int])
        },
{
    if !crate::attach::confirmed(has_module, path) {
        let ruled = choose|ruled: Attach|
            {
                &&& ruled.waited == attach.waited
                &&& ruled.next_notice == attach.next_notice
                &&& ruled.ruled_out@ == attach.ruled_out@.push(pids@[i as int])
                &&& #[trigger] ruled.examined(pids@, i + 1, after, request, said)
            };
        lemma_next(pids@, ruled.ruled_out@, i + 1);
    }
}

/// A round that comes to nothing is counted; what is ruled out is looked at again
/// every ten of them, and the search is announced when it is due and not before.
pub proof fn a_round_is_counted(
    attach: Attach,
    reply: Reply,
    after: Attach,
    request: Request,
    said: Seq<Action>,
)
    requires
        attach.wf(),
        attach.waited < 0xFFFF_0000,
        attach.advanced(reply, after, request, said),
        request is NextTick,
    ensures
        after.waited == attach.waited + 1,
        after.waited % 10 == 0 ==> after.ruled_out@.len() == 0,
        after.waited % 10 != 0 ==> after.ruled_out@.len() >= attach.ruled_out@.len(),
        said.contains(Action::Log(Note::StillLooking)) <==> after.waited >= attach.next_notice,
        after.waited >= attach.next_notice ==> after.next_notice == after.waited + 300,
        after.waited < attach.next_notice ==> after.next_notice == attach.next_notice,
{
    let loud = seq![Action::Log(Note::StillLooking)];
    assert(loud[0] == Action::Log(Note::StillLooking));
    assert(loud.contains(Action::Log(Note::StillLooking)));
}

/// Nothing is searched for at the main menu or in the map editor, where the
/// containers that lie around are those of games already left.
pub proof fn a_menu_is_not_searched<M: Memory>(
    splitter: Splitter,
    sight: Sight<M>,
    timer: TimerState,
    after: Splitter,
    asked: Seq<Action>,
    scout: Scout,
)
    requires
        splitter.stepped(sight, timer, after, asked),
        splitter.phase == Phase::Enter(scout),
        scout.scene.loaded is MainMenu || scout.scene.loaded is MapEditor,
    ensures
        after.phase matches Phase::Pause(_, left) && left == 120,
{
}

/// In a game the search is for a container that has this session's clock, and is
/// not the one of the game just left.
pub proof fn a_game_is_searched_for_its_own_container<M: Memory>(
    splitter: Splitter,
    sight: Sight<M>,
    timer: TimerState,
    after: Splitter,
    asked: Seq<Action>,
    scout: Scout,
)
    requires
        splitter.stepped(sight, timer, after, asked),
        splitter.phase == Phase::Enter(scout),
        scout.scene.loaded is Game || scout.scene.loaded is Unknown,
        layout_of(*sight.module) is Some,
    ensures
        after.phase matches Phase::Search(_, search) && search.wanted.skip
            == splitter.previous_registry && search.wanted.required == scout.session.clock.vtable
            && search.wanted.layout == layout_of(*sight.module)->0,
{
}

/// The container of a game that is watched is remembered, and so is its
/// initializer, until the next is found.
pub proof fn what_is_watched_is_remembered<M: Memory>(
    splitter: Splitter,
    sight: Sight<M>,
    timer: TimerState,
    after: Splitter,
    asked: Seq<Action>,
)
    requires
        splitter.stepped(sight, timer, after, asked),
    ensures
        splitter.phase !is Watching && after.phase is Watching ==> (after.phase matches
            Phase::Watching(_, watch) && after.previous_registry == Some(watch.registry.repository)
            && (watch.run_start matches Some(start) ==> after.previous_run_start == Some(
            start.instance,
        ))),
        after.phase !is Watching || splitter.phase is Watching ==> after.previous_run_start
            == splitter.previous_run_start,
        splitter.phase !is Judge ==> after.previous_registry == splitter.previous_registry,
        splitter.phase matches Phase::Judge(_, search) && search.registry is None ==> (
        after.previous_registry == splitter.previous_registry || after.previous_registry is None),
{
}

/// A container is no longer skipped once three searches that saw everything have
/// found no other; one that missed something counts for nothing.
pub proof fn skipping_is_given_up_after_three<M: Memory>(
    splitter: Splitter,
    sight: Sight<M>,
    timer: TimerState,
    after: Splitter,
    asked: Seq<Action>,
    scout: Scout,
    search: Search,
)
    requires
        splitter.stepped(sight, timer, after, asked),
        splitter.wf(),
        splitter.phase == Phase::Judge(scout, search),
        search.registry is None,
    ensures
        after.phase is Pause,
        !search.conclusive ==> after.previous_registry == splitter.previous_registry
            && after.empty_scans == splitter.empty_scans,
        search.conclusive && splitter.previous_registry is Some ==> {
            &&& splitter.empty_scans < 2 ==> after.previous_registry == splitter.previous_registry
                && after.empty_scans == splitter.empty_scans + 1
            &&& splitter.empty_scans == 2 ==> after.previous_registry is None && after.empty_scans
                == 0
        },
{
}

/// The initializer of the game just left is never bound; while the load still
/// runs, neither is one that has come to the overlay.
pub proof fn an_old_initializer_is_not_bound<M: Memory>(
    splitter: Splitter,
    sight: Sight<M>,
    timer: TimerState,
    after: Splitter,
    asked: Seq<Action>,
)
    requires
        splitter.stepped(sight, timer, after, asked),
    ensures
        splitter.phase is Load ==> (after.phase matches Phase::BindEarly(_, locate, offset) ==> {
            &&& locate.accept.skip == splitter.previous_run_start
            &&& locate.accept.below == Some((offset, 4i32))
        }),
        splitter.phase is Loaded ==> (after.phase matches Phase::FindStart(_, locate, offset) ==> {
            &&& locate.accept.skip == splitter.previous_run_start
            &&& locate.accept.below is None
            &&& locate.may_sweep
        }),
{
}

/// A scene that begins to load ends the game that is watched: nothing of it is
/// held any longer.
pub proof fn a_load_ends_the_game<M: Memory>(
    splitter: Splitter,
    sight: Sight<M>,
    timer: TimerState,
    after: Splitter,
    asked: Seq<Action>,
    session: Session,
    watch: Watch,
    byte: u8,
)
    requires
        splitter.stepped(sight, timer, after, asked),
        splitter.phase == Phase::Watching(session, watch),
        watch.stage is Top,
        !watch.scene.loading,
        has_byte(sight.memory, watch.scene.instance + watch.scene.offset, byte),
    ensures
        byte != 0 ==> match after.phase {
            Phase::Load(scout) => scout.run_start is None && scout.scene.instance
                == watch.scene.instance,
            Phase::SeekLoader(_, again) => again,
            _ => false,
        },
        byte == 0 ==> after.phase is Watching,
{
    the_loader_says_when_it_loads(watch.scene, sight.memory, byte);
}

/// An initializer that is no longer one is let go of before its state is read,
/// and is not taken again.
pub proof fn a_lost_initializer_is_let_go<M: Memory>(watch: Watch, memory: &M)
    requires
        watch.run_start is Some,
    ensures
        ({
            let start = watch.run_start->0;
            let after = watch.checked(memory).0;
            let is_one = start.class.validator.admits(memory, start.instance);
            &&& is_one ==> after.run_start == watch.run_start
            &&& !is_one ==> after.run_start is None && after.lost_run_start == Some(start.instance)
        }),
{
}

/// A search for a run start while a game is watched leaves out one that was lost.
pub proof fn a_lost_initializer_is_not_found_again<M: Memory>(
    splitter: Splitter,
    sight: Sight<M>,
    timer: TimerState,
    after: Splitter,
    asked: Seq<Action>,
    session: Session,
    watch: Watch,
    next: Watch,
    locate: Locate,
    offset: u32,
)
    requires
        splitter.stepped(sight, timer, after, asked),
        splitter.phase == Phase::Watching(session, watch),
        watch.stage is Top,
        after.phase == Phase::Watching(session, next),
        next.stage == Stage::Finding(locate, offset),
    ensures
        locate.accept.skip == next.lost_run_start,
        next.want_run_start,
        next.run_start is None,
        next.ticks % 240 == 0,
{
}

/// A table that can be read and has not missed three times in a row is kept; any
/// other is looked for again, three times at most.
pub proof fn a_stale_table_is_looked_for_again<M: Memory>(
    splitter: Splitter,
    sight: Sight<M>,
    timer: TimerState,
    after: Splitter,
    asked: Seq<Action>,
    word: u64,
)
    requires
        splitter.stepped(sight, timer, after, asked),
        splitter.phase is EnsureTable,
    ensures
        splitter.table matches Some(table) ==> {
            &&& table.misses < 3 && has_word(sight.memory, table.base as int, word)
                ==> after.phase is Enter && after.table == splitter.table
            &&& table.misses >= 3 ==> after.phase is SweepForTable && after.table is None
                && after.table_tries == 1
        },
        splitter.table is None && splitter.table_tries < 3 ==> after.phase is SweepForTable
            && after.table_tries == splitter.table_tries + 1,
        splitter.table is None && splitter.table_tries >= 3 ==> after.phase is Enter,
{
    if let Some(table) = splitter.table {
        what_is_there_is_read(sight.memory, table.base as int, word, 0, 0);
    }
}

/// A game is waited for until it has an event bus and a clock; one whose clock has
/// no day is not supported, and the runner is told so.
pub proof fn a_game_is_waited_for<M: Memory>(
    splitter: Splitter,
    sight: Sight<M>,
    timer: TimerState,
    after: Splitter,
    asked: Seq<Action>,
    bus: u64,
)
    requires
        splitter.stepped(sight, timer, after, asked),
    ensures
        splitter.phase is WaitBus ==> match sight.module.vtable(
            "Timberborn.SingletonSystem"@,
            "EventBus"@,
        ) {
            Some(found) => after.phase == Phase::WaitClock(found),
            None => after == splitter,
        },
        splitter.phase == Phase::WaitClock(bus) ==> {
            let image = "Timberborn.TimeSystem"@;
            let name = "DayNightCycle"@;
            let there = sight.module.vtable(image, name) is Some && sight.module.offset(
                image,
                name,
                "_eventBus"@,
            ) is Some;
            let day = sight.module.offset(image, name, "DayNumber"@);
            &&& !there ==> after == splitter
            &&& there && day is None ==> after.phase is Over && asked == seq![
                Action::Warn(Warning::VersionNotSupported),
            ]
            &&& there && day is Some ==> (after.phase matches Phase::SeekLoader(session, again)
                && !again && session.event_bus_vtable == bus && Some(session.day_number) == day
                && Some(session.clock.vtable) == sight.module.vtable(image, name))
        },
{
}

/// A pause is counted down tick by tick, and then the scene is looked at again
/// with nothing bound.
pub proof fn a_pause_is_counted_down<M: Memory>(
    splitter: Splitter,
    sight: Sight<M>,
    timer: TimerState,
    after: Splitter,
    asked: Seq<Action>,
    scout: Scout,
    left: u32,
)
    requires
        splitter.stepped(sight, timer, after, asked),
        splitter.phase == Phase::Pause(scout, left),
    ensures
        left > 1 ==> after.phase == Phase::Pause(scout, (left - 1) as u32),
        left <= 1 ==> (after.phase matches Phase::Load(next) && next.run_start is None
            && next.scene == scout.scene && next.session == scout.session),
        asked.len() == 0,
{
}

/// A load that was already running when the game was come to does not end it.
pub proof fn a_load_ends_the_game_once<M: Memory>(
    splitter: Splitter,
    sight: Sight<M>,
    timer: TimerState,
    after: Splitter,
    asked: Seq<Action>,
    session: Session,
    watch: Watch,
)
    requires
        splitter.stepped(sight, timer, after, asked),
        splitter.phase == Phase::Watching(session, watch),
        watch.scene.loading || watch.stage !is Top,
    ensures
        after.phase is Watching,
{
}

/// The day is noted when it changes, and not otherwise.
pub proof fn a_new_day_is_noted<M: Memory>(watch: Watch, memory: &M, day: i32)
    requires
        has_number(memory, watch.instance + watch.day_number, day),
    ensures
        watch.dated(memory).0.last_day == Some(day),
        watch.last_day == Some(day) ==> watch.dated(memory).1.len() == 0,
        watch.last_day != Some(day) ==> watch.dated(memory).1 == seq![
            Action::Log(Note::DayNumber { day }),
        ],
{
    what_is_there_is_read(memory, watch.instance + watch.day_number, 0, day, 0);
}

} // verus!
