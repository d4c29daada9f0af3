//! Driving the splitter against a [`World`], one tick at a time.
use vstd::prelude::*;

use crate::attach::{
    confirmed, detached_ticks, exact_name, only_logs, Attach, Place, Reply, Request,
    ATTACHED_TICK_RATE, DETACHED_TICKS_PER_SEC, EXACT_NAMES, FIRST_SEARCH_NOTICE_SECS,
    PROCESS_GONE_DELAY_SECS,
};
use crate::memory::{FakeProcess, Memory, MemoryRange};
use crate::metadata::Module;
use crate::note::{Action, Note};
use crate::probe::texts;
use crate::settings::{declaration, declared, Settings, DECLARED};
use crate::splitter::{goes_on, leaves, runs_on, Phase, Splitter, WATCHING};
use crate::status;
use crate::text::{owned, stands_at};
use crate::timer::{after, TimerEvent, TimerState};
use crate::watch::Sight;
use crate::world::{module_named, open_named, open_with_pid, pids_named, setting_in, World};

verus! {

/// The lines an action puts in the log.
pub open spec fn says(action: Action) -> Seq<Seq<char>> {
    match action {
        Action::Log(note) => seq![note.line()],
        Action::Line(line) => seq![line@],
        Action::Warn(warning) => seq![warning.line()],
        _ => Seq::empty(),
    }
}

/// Whether an action reaches the timer.
pub open spec fn reaches_timer(action: Action) -> bool {
    match action {
        Action::Warn(_) => true,
        Action::ClearStatus => true,
        Action::Start => true,
        Action::Split => true,
        _ => false,
    }
}

/// Whether `event` is what an action does to the timer.
pub open spec fn is_event_of(action: Action, event: TimerEvent) -> bool {
    match action {
        Action::Warn(warning) => status::shows(event, warning.line()),
        Action::ClearStatus => status::shows(event, Seq::empty()),
        Action::Start => event is Start,
        Action::Split => event is Split,
        _ => false,
    }
}

/// What doing an action leads to.
pub open spec fn performed<M: Memory>(
    before: World<M>,
    action: Action,
    world: World<M>,
) -> bool {
    &&& texts(world.log@) == texts(before.log@) + says(action)
    &&& if reaches_timer(action) {
        &&& world.timer.events@.len() == before.timer.events@.len() + 1
        &&& world.timer.events@.drop_last() == before.timer.events@
        &&& is_event_of(action, world.timer.events@.last())
        &&& world.timer.state == after(before.timer.state, world.timer.events@.last())
    } else {
        world.timer == before.timer
    }
    &&& world == (World { log: world.log, timer: world.timer, ..before })
}

/// What doing actions, in order, leads to.
pub open spec fn all_performed<M: Memory>(
    before: World<M>,
    actions: Seq<Action>,
    world: World<M>,
) -> bool
    decreases actions.len(),
{
    if actions.len() == 0 {
        world == before
    } else {
        exists|mid: World<M>|
            {
                &&& all_performed(before, actions.drop_last(), mid)
                &&& #[trigger] performed(mid, actions.last(), world)
            }
    }
}

proof fn lemma_one_more<M: Memory>(
    before: World<M>,
    actions: Seq<Action>,
    mid: World<M>,
    world: World<M>,
)
    requires
        actions.len() > 0,
        all_performed(before, actions.drop_last(), mid),
        performed(mid, actions.last(), world),
    ensures
        all_performed(before, actions, world),
{
}

/// Does what the splitter asks for.
pub fn perform<M: Memory>(world: &mut World<M>, action: &Action)
    requires
        old(world).wf(),
    ensures
        final(world).wf(),
        performed(*old(world), *action, *final(world)),
{
    match action {
        Action::Log(note) => {
            world.print_message(note.text());
        },
        Action::Line(line) => {
            world.print_message(owned(line.as_str()));
        },
        Action::Warn(warning) => {
            world.print_message(owned(warning.message()));
            world.timer.record(status::event(warning.message()));
        },
        Action::ClearStatus => {
            proof {
                reveal_strlit("");
                assert(""@ =~= Seq::<char>::empty());
            }
            world.timer.record(status::event(""));
        },
        Action::Start => {
            world.timer.record(TimerEvent::Start);
        },
        Action::Split => {
            world.timer.record(TimerEvent::Split);
        },
        Action::Describe(_) => {},
    }
    assert(texts(world.log@) =~= texts(old(world).log@) + says(*action));
    assert(reaches_timer(*action) ==> world.timer.events@.drop_last() =~= old(world).timer.events@);
}

/// Does everything the splitter asks for, in order.
pub fn perform_all<M: Memory>(world: &mut World<M>, actions: &Vec<Action>)
    requires
        old(world).wf(),
    ensures
        final(world).wf(),
        all_performed(*old(world), actions@, *final(world)),
{
    let mut i: usize = 0;
    assert(actions@.take(0) =~= Seq::<Action>::empty());
    while i < actions.len()
        invariant
            i <= actions@.len(),
            world.wf(),
            all_performed(*old(world), actions@.take(i as int), *world),
        decreases actions@.len() - i,
    {
        let ghost mid = *world;
        perform(world, &actions[i]);
        assert(actions@.take(i + 1).drop_last() =~= actions@.take(i as int));
        assert(actions@.take(i + 1).last() == actions@[i as int]);
        proof {
            lemma_one_more(*old(world), actions@.take(i + 1), mid, *world);
        }
        i = i + 1;
    }
    assert(actions@.take(i as int) =~= actions@);
}

/// What the splitter is doing.
pub enum Life {
    /// Nothing yet.
    Begin,
    /// Looking for the game.
    Searching(Attach),
    /// In the game behind this handle.
    Running(u64, Splitter),
    /// Waiting for this many ticks after the game closed.
    Resting(u32),
}

/// The splitter, in a world.
pub struct Drive<M: Memory> {
    pub world: World<M>,
    pub life: Life,
}

/// Whether a process is taken for the game: by a name of its own, or by what
/// confirms it.
pub open spec fn is_game<M: Memory>(process: FakeProcess<M>) -> bool {
    process.open && (process.name@ == exact_name(0)@ || process.name@ == exact_name(1)@
        || confirmed(
        module_named(process.modules@, "Timberborn.exe"@) matches Some(m) && m.address != 0,
        process.path,
    ))
}

/// A process whose path names the game's executable is taken for the game, as one
/// that is built from a fixture is.
pub proof fn a_path_of_the_game_confirms_it<M: Memory>(
    process: FakeProcess<M>,
    front: Seq<char>,
    version: Seq<char>,
)
    requires
        process.open,
        process.path matches Some(path) && path@ == front + version + "/Timberborn.exe"@,
    ensures
        is_game(process),
{
    reveal_strlit("Timberborn");
    reveal_strlit("/Timberborn.exe");
    let path = process.path->0@;
    let at = (front.len() + version.len() + 1) as int;
    assert(path.subrange(at, at + 10) =~= "Timberborn"@);
    assert(stands_at(path, "Timberborn"@, at));
}

/// Whether no open process has one of the first `n` names that identify the game
/// on their own.
pub open spec fn none_named<M: Memory>(processes: Seq<FakeProcess<M>>, n: int) -> bool {
    forall|i: int| 0 <= i < n ==> open_named(processes, (#[trigger] exact_name(i))@, 0) is None
}

/// What the settings are, by what is forced and what is declared.
pub open spec fn settings_of<M: Memory>(world: World<M>) -> Settings {
    Settings {
        start: set(world, 0),
        forester: set(world, 1),
        gear_workshop: set(world, 2),
        tappers_shack: set(world, 3),
        advanced_science: set(world, 4),
        smelter_woodworkshop: set(world, 5),
        unlock_wonder: set(world, 6),
        congratulations_screen: set(world, 7),
    }
}

/// What a declared setting is set to.
pub open spec fn set<M: Memory>(world: World<M>, index: int) -> bool {
    match setting_in(world.settings@, declaration(index).0) {
        Some(value) => value,
        None => declaration(index).1,
    }
}

fn read_setting<M: Memory>(world: &World<M>, index: usize) -> (value: bool)
    requires
        index < DECLARED,
    ensures
        value == set(*world, index as int),
{
    let (key, default) = declared(index);
    match world.setting(key) {
        Some(value) => value,
        None => default,
    }
}

/// Reads the settings as they are now.
pub fn read_settings<M: Memory>(world: &World<M>) -> (settings: Settings)
    ensures
        settings == settings_of(*world),
{
    Settings {
        start: read_setting(world, 0),
        forester: read_setting(world, 1),
        gear_workshop: read_setting(world, 2),
        tappers_shack: read_setting(world, 3),
        advanced_science: read_setting(world, 4),
        smelter_woodworkshop: read_setting(world, 5),
        unlock_wonder: read_setting(world, 6),
        congratulations_screen: read_setting(world, 7),
    }
}

/// The settings the splitter registers, as keys and defaults.
pub open spec fn are_declared(settings: Seq<(String, bool)>, n: int) -> bool {
    forall|i: int| 0 <= i < n ==> ((#[trigger] settings[i]).0@, settings[i].1) == declaration(i)
}

/// Whether the declared settings were registered, behind what was.
pub open spec fn registers(before: Seq<(String, bool)>, after: Seq<(String, bool)>) -> bool {
    &&& after.len() == before.len() + DECLARED
    &&& after.take(before.len() as int) == before
    &&& are_declared(after.skip(before.len() as int), DECLARED as int)
}

impl<M: Memory> Drive<M> {
    pub open spec fn wf(self) -> bool {
        &&& self.world.wf()
        &&& match self.life {
            Life::Searching(attach) => attach.wf(),
            Life::Running(_, splitter) => splitter.wf(),
            _ => true,
        }
    }

    /// The same world, with the splitter doing something else in it.
    pub open spec fn at(self, life: Life) -> Self {
        Drive { life, ..self }
    }

    /// The splitter, about to be loaded into a world.
    pub fn new(world: World<M>) -> (drive: Self)
        requires
            world.wf(),
        ensures
            drive.wf(),
            drive == (Drive { world, life: Life::Begin }),
    {
        Drive { world, life: Life::Begin }
    }

    fn register(&mut self)
        requires
            old(self).wf(),
        ensures
            final(self).wf(),
            registers(old(self).world.registered_settings@, final(self).world.registered_settings@),
            *final(self) == (Drive {
                world: World {
                    registered_settings: final(self).world.registered_settings,
                    ..old(self).world
                },
                life: old(self).life,
            }),
    {
        let mut i: usize = 0;
        let ghost had = self.world.registered_settings@;
        assert(had.take(had.len() as int) =~= had);
        while i < DECLARED
            invariant
                i <= DECLARED,
                self.wf(),
                had == old(self).world.registered_settings@,
                self.world.registered_settings@.len() == had.len() + i,
                self.world.registered_settings@.take(had.len() as int) == had,
                are_declared(self.world.registered_settings@.skip(had.len() as int), i as int),
                *self == (Drive {
                    world: World {
                        registered_settings: self.world.registered_settings,
                        ..old(self).world
                    },
                    life: old(self).life,
                }),
            decreases DECLARED - i,
        {
            let (key, default) = declared(i);
            let ghost before = self.world.registered_settings@;
            self.world.add_bool(key, default);
            let ghost after = self.world.registered_settings@;
            let ghost n = had.len() as int;
            assert(after.take(n) =~= before.take(n)) by {
                assert(after.drop_last().take(n) =~= after.take(n));
            }
            assert forall|k: int| 0 <= k < i + 1 implies ((#[trigger] after.skip(n)[k]).0@,
                after.skip(n)[k].1) == declaration(k) by {
                if k < i {
                    assert(after.drop_last()[n + k] == before[n + k]);
                    assert(before.skip(n)[k] == before[n + k]);
                }
            }
            i = i + 1;
        }
    }
}

/// The search for the game leaves everything in a world but its log, its timer's
/// events and its handles as it was.
pub open spec fn only_searched<M: Memory>(before: World<M>, world: World<M>) -> bool {
    &&& world == (World {
        log: world.log,
        tick_rate: world.tick_rate,
        timer: world.timer,
        attached: world.attached,
        ..before
    })
    &&& world.timer.state == before.timer.state
    &&& texts(before.log@).is_prefix_of(texts(world.log@))
}

/// A world in which one more handle has been given out.
pub open spec fn attaching<M: Memory>(
    before: World<M>,
    process: usize,
    handle: u64,
    world: World<M>,
) -> bool {
    &&& world.attached@ == before.attached@.push(Some(process))
    &&& handle == world.attached@.len()
    &&& world == (World { attached: world.attached, ..before })
}

/// What comes of a request of the search: the reply, and the handle of a process
/// that was attached.
pub open spec fn answered<M: Memory>(
    before: World<M>,
    request: Request,
    reply: Reply,
    handle: u64,
    world: World<M>,
) -> bool {
    match request {
        Request::Attach(name) => match open_named(before.processes@, name@, 0) {
            Some(p) => reply is Attached && attaching(before, p, handle, world),
            None => reply is Refused && handle == 0 && world == before,
        },
        Request::List(name) => {
            &&& reply matches Reply::Pids(pids) && pids@ == pids_named(before.processes@, name@)
            &&& handle == 0
            &&& world == before
        },
        Request::AttachPid(pid) => match open_with_pid(before.processes@, pid, 0) {
            Some(p) => {
                let process = before.processes@[p as int];
                &&& attaching(before, p, handle, world)
                &&& reply matches Reply::Candidate { has_module, path } && has_module == (
                module_named(process.modules@, "Timberborn.exe"@) matches Some(m) && m.address != 0)
                    && path == process.path
            },
            None => reply is Refused && handle == 0 && world == before,
        },
        _ => reply is Tick && handle == 0 && world == before,
    }
}

impl<M: Memory> Drive<M> {
    /// Does what the search asks for, and says what came of it: the reply, and
    /// the handle of a process that was attached.
    fn answer(&mut self, request: Request) -> (result: (Reply, u64))
        requires
            old(self).wf(),
        ensures
            final(self).wf(),
            final(self).life == old(self).life,
            final(self).world == (World {
                attached: final(self).world.attached,
                ..old(self).world
            }),
            (result.0 is Attached || result.0 is Candidate) ==> final(self).world.index_of(result.1)
                is Some,
            answered(old(self).world, request, result.0, result.1, final(self).world),
    {
        match request {
            Request::Attach(name) => {
                let handle: u64 = self.world.attach(name);
                if handle != 0 {
                    (Reply::Attached, handle)
                } else {
                    (Reply::Refused, 0)
                }
            },
            Request::List(name) => (Reply::Pids(self.world.list_by_name(name)), 0),
            Request::AttachPid(pid) => {
                let handle: u64 = self.world.attach_by_pid(pid);
                if handle == 0 {
                    return (Reply::Refused, 0);
                }
                let has_module = self.world.module_address(handle, "Timberborn.exe") != 0;
                let path = match self.world.process(handle) {
                    Some(process) => process.path.clone(),
                    None => None,
                };
                (Reply::Candidate { has_module, path }, handle)
            },
            _ => (Reply::Tick, 0),
        }
    }
}

proof fn lemma_open_named<M: Memory>(processes: Seq<FakeProcess<M>>, name: Seq<char>, i: int)
    requires
        0 <= i,
        processes.len() <= usize::MAX,
    ensures
        open_named(processes, name, i) matches Some(p) ==> i <= p < processes.len()
            && processes[p as int].open && processes[p as int].name@ == name,
    decreases processes.len() - i,
{
    if i < processes.len() {
        lemma_open_named(processes, name, i + 1);
    }
}

proof fn lemma_open_with_pid<M: Memory>(processes: Seq<FakeProcess<M>>, pid: u64, i: int)
    requires
        0 <= i,
        processes.len() <= usize::MAX,
    ensures
        open_with_pid(processes, pid, i) matches Some(p) ==> i <= p < processes.len()
            && processes[p as int].open && processes[p as int].pid == pid,
    decreases processes.len() - i,
{
    if i < processes.len() {
        lemma_open_with_pid(processes, pid, i + 1);
    }
}

/// A search in the middle of a tick: the world, where the search is, what it asks
/// for next, what it has said, and the handle of what it attached last.
pub struct Chase<M: Memory> {
    pub world: World<M>,
    pub attach: Attach,
    pub request: Request,
    pub said: Seq<Action>,
    pub handle: u64,
}

impl<M: Memory> Chase<M> {
    /// Where a tick's search begins.
    pub open spec fn begins(self, world: World<M>, attach: Attach) -> bool {
        &&& self.world == world
        &&& self.handle == 0
        &&& attach.advanced(Reply::Tick, self.attach, self.request, self.said)
    }

    /// What answering the search's request leads to. A process that turns out
    /// not to be the game is let go of.
    pub open spec fn leads_to(self, next: Chase<M>) -> bool {
        exists|reply: Reply, world: World<M>, more: Seq<Action>|
            {
                &&& #[trigger] answered(self.world, self.request, reply, next.handle, world)
                &&& #[trigger] self.attach.advanced(reply, next.attach, next.request, more)
                &&& next.said == self.said + more
                &&& if reply is Candidate && next.request !is Run {
                    &&& next.world.attached@ == world.attached@.update(next.handle - 1, None)
                    &&& next.world == (World { attached: next.world.attached, ..world })
                } else {
                    next.world == world
                }
            }
    }
}

/// Whether a tick's search comes from one place to another in that many steps.
pub open spec fn chased<M: Memory>(from: Chase<M>, steps: nat, to: Chase<M>) -> bool
    decreases steps,
{
    if steps == 0 {
        to == from
    } else {
        exists|mid: Chase<M>|
            {
                &&& chased(from, (steps - 1) as nat, mid)
                &&& !Attach::ends(mid.request)
                &&& #[trigger] mid.leads_to(to)
            }
    }
}

proof fn lemma_chased<M: Memory>(from: Chase<M>, steps: nat, mid: Chase<M>, to: Chase<M>)
    requires
        chased(from, steps, mid),
        !Attach::ends(mid.request),
        mid.leads_to(to),
    ensures
        chased(from, steps + 1, to),
{
}

/// A search that is just beginning.
pub open spec fn is_new_search(attach: Attach) -> bool {
    &&& attach.waited == 0
    &&& attach.next_notice == FIRST_SEARCH_NOTICE_SECS * DETACHED_TICKS_PER_SEC
    &&& attach.ruled_out@.len() == 0
    &&& attach.place is Rest
}

impl<M: Memory> Drive<M> {
    /// What a search from where it rested comes to, once it has been driven to
    /// its end: what it said is said, and the process it settled on is the game,
    /// or it goes on in the next tick.
    pub open spec fn chases(self, attach: Attach, steps: nat, last: Chase<M>, after: Drive<M>) -> bool {
        let slow = World { tick_rate: Some(DETACHED_TICKS_PER_SEC), ..self.world };
        &&& exists|first: Chase<M>| #[trigger]
            first.begins(slow, attach) && chased(first, steps, last)
        &&& Attach::ends(last.request)
        &&& exists|said: World<M>|
            {
                &&& #[trigger] all_performed(last.world, last.said, said)
                &&& after == if last.request is Run {
                    Drive {
                        world: World { tick_rate: Some(ATTACHED_TICK_RATE), ..said },
                        life: Life::Running(last.handle, fresh()),
                    }
                } else {
                    Drive { world: said, life: Life::Searching(last.attach) }
                }
            }
    }

    /// What looking for the game, from where the search rested, comes to.
    ///
    /// Whatever it comes to, a process that has one of the game's own names is
    /// found if there is one; one that is found is the game; and while nothing
    /// is, the search goes on in the next tick. The timer is not touched.
    pub open spec fn looked(self, attach: Attach, after: Drive<M>) -> bool {
        &&& exists|steps: nat, last: Chase<M>| #[trigger] self.chases(attach, steps, last, after)
        &&& only_searched(self.world, after.world)
        &&& after.world.timer == self.world.timer
        &&& match after.life {
            Life::Running(handle, splitter) => {
                &&& after.world.index_of(handle) matches Some(p) && p
                    < self.world.processes@.len() && is_game(self.world.processes@[p as int])
                &&& splitter == fresh()
                &&& after.world.tick_rate == Some(ATTACHED_TICK_RATE)
            },
            Life::Searching(attach) => {
                &&& attach.place is Rest
                &&& none_named(self.world.processes@, EXACT_NAMES as int)
                &&& after.world.tick_rate == Some(DETACHED_TICKS_PER_SEC)
            },
            _ => false,
        }
    }

    /// What a tick of looking for the game leads to: where it is found, the
    /// splitter goes to work in it at once.
    pub open spec fn sought(self, attach: Attach, after: Drive<M>) -> bool {
        exists|found: Drive<M>|
            {
                &&& #[trigger] self.looked(attach, found)
                &&& match found.life {
                    Life::Running(handle, splitter) => found.ran(handle, splitter, after),
                    _ => after == found,
                }
            }
    }
}

/// The splitter, newly attached.
pub open spec fn fresh() -> Splitter {
    Splitter {
        phase: Phase::Begin,
        table: None,
        table_tries: 0,
        probed: false,
        previous_registry: None,
        previous_run_start: None,
        empty_scans: 0,
    }
}

proof fn lemma_logs<M: Memory>(before: World<M>, actions: Seq<Action>, world: World<M>)
    requires
        all_performed(before, actions, world),
        only_logs(actions),
    ensures
        world == (World { log: world.log, ..before }),
        before.log@.len() <= world.log@.len(),
        forall|i: int| 0 <= i < before.log@.len() ==> (#[trigger] world.log@[i])@ == before.log@[i]@,
    decreases actions.len(),
{
    if actions.len() > 0 {
        let mid = choose|mid: World<M>|
            {
                &&& all_performed(before, actions.drop_last(), mid)
                &&& #[trigger] performed(mid, actions.last(), world)
            };
        assert(only_logs(actions.drop_last())) by {
            assert forall|i: int| 0 <= i < actions.drop_last().len() implies
                #[trigger] actions.drop_last()[i] is Log by {
                assert(actions[i] is Log);
            }
        }
        lemma_logs(before, actions.drop_last(), mid);
        assert(actions[actions.len() - 1] is Log);
        let says = says(actions.last());
        assert(texts(world.log@).len() == world.log@.len());
        assert(texts(mid.log@).len() == mid.log@.len());
        assert forall|i: int| 0 <= i < before.log@.len() implies (#[trigger] world.log@[i])@
            == before.log@[i]@ by {
            assert(texts(world.log@)[i] == (texts(mid.log@) + says)[i]);
            assert(texts(world.log@)[i] == world.log@[i]@);
            assert(texts(mid.log@)[i] == mid.log@[i]@);
        }
    }
}

impl<M: Memory> Drive<M> {
    /// Looks for the game, for one tick.
    #[verifier::loop_isolation(false)]
    fn look(&mut self, attach: Attach)
        requires
            old(self).wf(),
            attach.wf(),
            attach.place is Rest,
        ensures
            final(self).wf(),
            old(self).looked(attach, *final(self)),
    {
        let ghost start = attach;
        let mut attach = attach;
        let mut out: Vec<Action> = Vec::new();
        let mut handle: u64 = 0;
        self.world.tick_rate = Some(DETACHED_TICKS_PER_SEC);
        let ghost slow = self.world;
        let count: usize = self.world.processes.len();
        let ghost processes = self.world.processes@;
        let mut request = attach.advance(Reply::Tick, &mut out);
        assert(out@.skip(0) =~= out@);
        let ghost first = Chase { world: slow, attach, request, said: out@, handle: 0 };
        let ghost mut here = first;
        let ghost mut steps: nat = 0;
        assert(first.begins(slow, start));
        while !matches!(request, Request::NextTick | Request::Run)
            invariant
                self.wf(),
                attach.wf(),
                self.life == old(self).life,
                only_searched(old(self).world, self.world),
                self.world.log == old(self).world.log,
                self.world.timer == old(self).world.timer,
                self.world.processes@ == processes,
                processes.len() == count,
                self.world.tick_rate == Some(DETACHED_TICKS_PER_SEC),
                !Attach::ends(request) ==> attach.awaits(request) && attach.ahead().0 >= 0
                    && attach.ahead().1 >= 0,
                attach.place matches Place::Name(n) ==> none_named(processes, n as int),
                attach.place is List || attach.place is Pid || attach.place is Rest ==> none_named(
                    processes,
                    EXACT_NAMES as int,
                ),
                request is NextTick ==> attach.place is Rest,
                request is Run ==> (self.world.index_of(handle) matches Some(p) && p
                    < processes.len() && is_game(processes[p as int])),
                only_logs(out@),
                here == (Chase { world: self.world, attach, request, said: out@, handle }),
                chased(first, steps, here),
            decreases
                if Attach::ends(request) {
                    0int
                } else {
                    1
                },
                attach.ahead().0,
                attach.ahead().1,
        {
            let ghost asked = attach;
            let ghost wanted = request;
            let ghost from = self.world;
            let (reply, at) = self.answer(request);
            let ghost answered_world = self.world;
            let ghost answer = reply;
            let rejects = matches!(reply, Reply::Candidate { .. });
            proof {
                match request {
                    Request::Attach(name) => {
                        lemma_open_named(processes, name@, 0);
                    },
                    Request::AttachPid(pid) => {
                        lemma_open_with_pid(processes, pid, 0);
                    },
                    _ => {},
                }
            }
            handle = at;
            let ghost said = out@;
            request = attach.advance(reply, &mut out);
            assert forall|i: int| 0 <= i < out@.len() implies #[trigger] out@[i] is Log by {
                if i < said.len() {
                    assert(out@[i] == said[i]);
                } else {
                    assert(out@.skip(said.len() as int)[i - said.len()] is Log);
                }
            }
            if rejects && !matches!(request, Request::Run) {
                self.world.detach(handle);
            }
            proof {
                let more = out@.skip(said.len() as int);
                let next = Chase { world: self.world, attach, request, said: out@, handle };
                assert(out@ =~= said + more);
                assert(answered(here.world, here.request, answer, next.handle, answered_world));
                assert(here.attach.advanced(answer, next.attach, next.request, more));
                assert(here.leads_to(next));
                lemma_chased(first, steps, here, next);
                here = next;
                steps = steps + 1;
            }
        }
        let found = matches!(request, Request::Run);
        let ghost before = self.world;
        perform_all(&mut self.world, &out);
        proof {
            lemma_logs(before, out@, self.world);
            assert(texts(old(self).world.log@) =~= texts(self.world.log@).take(
                old(self).world.log@.len() as int,
            ));
        }
        let ghost done = self.world;
        if found {
            self.world.tick_rate = Some(ATTACHED_TICK_RATE);
            self.life = Life::Running(handle, Splitter::new());
        } else {
            self.life = Life::Searching(attach);
        }
        proof {
            assert(first.begins(slow, start) && chased(first, steps, here));
            assert(all_performed(here.world, here.said, done));
            assert(old(self).chases(start, steps, here, *self));
        }
    }

    /// Looks for the game, for one tick, and goes to work in it where it is found.
    fn seek(&mut self, attach: Attach)
        requires
            old(self).wf(),
            attach.wf(),
            attach.place is Rest,
        ensures
            final(self).wf(),
            final(self).settled(),
            old(self).sought(attach, *final(self)),
    {
        self.look(attach);
        let ghost found = *self;
        let mut life = Life::Begin;
        core::mem::swap(&mut life, &mut self.life);
        match life {
            Life::Running(handle, splitter) => {
                let ghost here = *self;
                self.run_on(handle, splitter);
                proof {
                    lemma_ran(here, found, handle, splitter, *self);
                }
            },
            other => {
                self.life = other;
            },
        }
        assert(old(self).looked(attach, found));
    }
}

/// What one step of the splitter leads to, in a process whose runtime is up: what
/// it asks for is done.
pub open spec fn stepped_once<M: Memory>(
    before: World<M>,
    process: FakeProcess<M>,
    splitter: Splitter,
    next: Splitter,
    world: World<M>,
) -> bool {
    exists|ranges: &[MemoryRange], module: Module, asked: Seq<Action>|
        {
            &&& ranges@ == process.ranges@
            &&& process.runtime == Some(module)
            &&& #[trigger] splitter.stepped(
                Sight {
                    memory: &process.memory,
                    ranges,
                    module: &module,
                    settings: settings_of(before),
                },
                before.timer.state,
                next,
                asked,
            )
            &&& all_performed(before, asked, world)
        }
}

/// What a tick of the splitter leads to: step after step, `steps` of them at most
/// behind the first, until one at which the tick ends. `fresh` while no game has
/// been left in it.
pub open spec fn went<M: Memory>(
    before: World<M>,
    process: FakeProcess<M>,
    splitter: Splitter,
    fresh: bool,
    steps: nat,
    last: Splitter,
    world: World<M>,
) -> bool
    decreases steps,
{
    exists|next: Splitter, mid: World<M>|
        {
            &&& #[trigger] stepped_once(before, process, splitter, next, mid)
            &&& if goes_on(splitter.phase.rank(), next.phase.rank(), fresh) {
                &&& steps > 0
                &&& went(
                    mid,
                    process,
                    next,
                    fresh && !leaves(splitter.phase.rank(), next.phase.rank()),
                    (steps - 1) as nat,
                    last,
                    world,
                )
            } else {
                last == next && world == mid
            }
        }
}

/// One step in front of a tick's others.
proof fn lemma_went<M: Memory>(
    before: World<M>,
    process: FakeProcess<M>,
    splitter: Splitter,
    fresh: bool,
    next: Splitter,
    mid: World<M>,
    steps: nat,
    last: Splitter,
    world: World<M>,
)
    requires
        stepped_once(before, process, splitter, next, mid),
        goes_on(splitter.phase.rank(), next.phase.rank(), fresh),
        went(
            mid,
            process,
            next,
            fresh && !leaves(splitter.phase.rank(), next.phase.rank()),
            steps,
            last,
            world,
        ),
    ensures
        went(before, process, splitter, fresh, steps + 1, last, world),
{
    assert(stepped_once(before, process, splitter, next, mid));
    assert((steps + 1 - 1) as nat == steps);
}

impl<M: Memory> Drive<M> {
    /// A game is over, or cannot be read: it is let go of, and after a while the
    /// search begins again.
    pub open spec fn rests(self, handle: u64, after: Drive<M>) -> bool {
        &&& after.life == Life::Resting((PROCESS_GONE_DELAY_SECS * DETACHED_TICKS_PER_SEC) as u32)
        &&& after.world.attached@ == if 1 <= handle <= self.world.attached@.len() {
            self.world.attached@.update(handle - 1, None)
        } else {
            self.world.attached@
        }
        &&& after.world == (World {
            tick_rate: Some(DETACHED_TICKS_PER_SEC),
            attached: after.world.attached,
            ..self.world
        })
    }

    /// What a tick in the game leads to.
    ///
    /// The splitter goes on against the process it is attached to until it has
    /// to wait, and what it asks for is done. A process that has closed ends
    /// that, and so does one that cannot be read; one whose runtime is not up
    /// yet is waited for.
    pub open spec fn ran(self, handle: u64, splitter: Splitter, after: Drive<M>) -> bool {
        match self.world.index_of(handle) {
            Some(p) if self.world.processes@[p as int].open => {
                let process = self.world.processes@[p as int];
                if process.runtime is Some {
                    exists|steps: nat, last: Splitter, world: World<M>|
                        {
                            &&& #[trigger] went(
                                self.world,
                                process,
                                splitter,
                                true,
                                steps,
                                last,
                                world,
                            )
                            &&& if last.phase is Over {
                                (Drive { world, life: Life::Begin }).rests(handle, after)
                            } else {
                                after == (Drive { world, life: Life::Running(handle, last) })
                            }
                        }
                } else {
                    after == self.at(Life::Running(handle, splitter))
                }
            },
            _ => self.rests(handle, after),
        }
    }
}

/// What the splitter was doing before does not matter to a tick in the game.
proof fn lemma_ran<M: Memory>(
    one: Drive<M>,
    other: Drive<M>,
    handle: u64,
    splitter: Splitter,
    after: Drive<M>,
)
    requires
        one.ran(handle, splitter, after),
        one.world == other.world,
    ensures
        other.ran(handle, splitter, after),
{
}

proof fn lemma_processes<M: Memory>(before: World<M>, actions: Seq<Action>, world: World<M>)
    requires
        all_performed(before, actions, world),
    ensures
        world.processes == before.processes,
        world.attached == before.attached,
    decreases actions.len(),
{
    lemma_registered(before, actions, world);
}

impl<M: Memory> Drive<M> {
    /// One step of the splitter in an open process whose runtime is up.
    fn step_once(&mut self, handle: u64, splitter: &mut Splitter)
        requires
            old(self).wf(),
            old(splitter).wf(),
            old(self).world.index_of(handle) matches Some(p) && old(
                self,
            ).world.processes@[p as int].runtime is Some,
        ensures
            final(self).wf(),
            final(splitter).wf(),
            final(self).life == old(self).life,
            final(self).world.processes == old(self).world.processes,
            final(self).world.attached == old(self).world.attached,
            old(self).world.index_of(handle) matches Some(p) && stepped_once(
                old(self).world,
                old(self).world.processes@[p as int],
                *old(splitter),
                *final(splitter),
                final(self).world,
            ),
    {
        let ghost before = *splitter;
        let ghost p = self.world.index_of(handle)->0;
        let ghost process = self.world.processes@[p as int];
        let settings = read_settings(&self.world);
        let timer: TimerState = self.world.timer.state;
        let mut out: Vec<Action> = Vec::new();
        match self.world.process(handle) {
            Some(process) => match &process.runtime {
                Some(module) => {
                    let ranges = process.ranges.as_slice();
                    let sight = Sight { memory: &process.memory, ranges, module, settings };
                    splitter.step(&sight, timer, &mut out);
                    assert(out@.skip(0) =~= out@);
                    assert(before.stepped(sight, timer, *splitter, out@));
                    assert(before.stepped(
                        Sight {
                            memory: &process.memory,
                            ranges,
                            module: &process.runtime->0,
                            settings: settings_of(old(self).world),
                        },
                        old(self).world.timer.state,
                        *splitter,
                        out@,
                    ));
                },
                None => {},
            },
            None => {},
        }
        let ghost asked = out@;
        perform_all(&mut self.world, &out);
        proof {
            lemma_processes(old(self).world, asked, self.world);
        }
    }

    fn rest(&mut self, handle: u64)
        requires
            old(self).wf(),
        ensures
            final(self).wf(),
            old(self).rests(handle, *final(self)),
    {
        self.world.detach(handle);
        self.world.tick_rate = Some(DETACHED_TICKS_PER_SEC);
        self.life = Life::Resting(detached_ticks(PROCESS_GONE_DELAY_SECS));
    }

    fn run_on(&mut self, handle: u64, splitter: Splitter)
        requires
            old(self).wf(),
            splitter.wf(),
        ensures
            final(self).wf(),
            final(self).settled(),
            old(self).ran(handle, splitter, *final(self)),
    {
        if !self.world.is_open(handle) {
            self.rest(handle);
            return ;
        }
        let up = match self.world.process(handle) {
            Some(process) => process.runtime.is_some(),
            None => false,
        };
        if !up {
            self.life = Life::Running(handle, splitter);
            return ;
        }
        let ghost start = splitter;
        let ghost begun = self.world;
        let ghost p = self.world.index_of(handle)->0;
        let ghost process = self.world.processes@[p as int];
        let mut splitter = splitter;
        let mut fresh = true;
        let mut going = true;
        let ghost mut done: nat = 0;
        while going
            invariant
                self.wf(),
                splitter.wf(),
                begun.index_of(handle) == Some(p),
                process == begun.processes@[p as int],
                process.runtime is Some,
                self.world.processes == begun.processes,
                self.world.attached == begun.attached,
                going ==> forall|k: nat, last: Splitter, world: World<M>| #[trigger]
                    went(self.world, process, splitter, fresh, k, last, world) ==> went(
                        begun,
                        process,
                        start,
                        true,
                        k + done,
                        last,
                        world,
                    ),
                !going ==> went(begun, process, start, true, done, splitter, self.world),
            decreases
                if going {
                    1int
                } else {
                    0
                },
                if fresh {
                    1int
                } else {
                    0
                },
                WATCHING + 8 - splitter.phase.rank(),
        {
            let from: u32 = splitter.rank();
            let ghost before = splitter;
            let ghost world = self.world;
            let ghost was = fresh;
            self.step_once(handle, &mut splitter);
            let to: u32 = splitter.rank();
            let ghost mid = self.world;
            let ghost n = done;
            assert(stepped_once(world, process, before, splitter, mid));
            if runs_on(from, to, fresh) {
                fresh = fresh && !(from >= WATCHING && to < WATCHING);
                proof {
                    assert forall|k: nat, last: Splitter, end: World<M>| #[trigger]
                        went(mid, process, splitter, fresh, k, last, end) implies went(
                        begun,
                        process,
                        start,
                        true,
                        k + (n + 1),
                        last,
                        end,
                    ) by {
                        lemma_went(world, process, before, was, splitter, mid, k, last, end);
                        assert(went(world, process, before, was, k + 1, last, end));
                        assert((k + 1) + n == k + (n + 1));
                    }
                    done = n + 1;
                }
            } else {
                going = false;
                proof {
                    assert(went(world, process, before, was, 0, splitter, mid));
                    assert(0 + n == n);
                }
            }
        }
        let ghost last = splitter;
        let ghost world = self.world;
        assert(went(begun, process, start, true, done, last, world));
        if splitter.is_over() {
            self.life = Life::Begin;
            let ghost here = *self;
            self.rest(handle);
            assert(here == (Drive { world, life: Life::Begin }));
        } else {
            self.life = Life::Running(handle, splitter);
        }
    }

    /// What a tick leads to.
    pub open spec fn ticked(self, after: Drive<M>) -> bool {
        match self.life {
            // Announces itself, takes down whatever an earlier session left on
            // screen, registers its settings, and starts looking.
            Life::Begin => exists|mid: Drive<M>, attach: Attach|
                {
                    &&& #[trigger] mid.sought(attach, after)
                    &&& is_new_search(attach)
                    &&& mid.life is Begin
                    &&& all_performed(
                        self.world,
                        seq![Action::Log(Note::Greeting), Action::ClearStatus],
                        World {
                            registered_settings: self.world.registered_settings,
                            ..mid.world
                        },
                    )
                    &&& registers(
                        self.world.registered_settings@,
                        mid.world.registered_settings@,
                    )
                },
            Life::Searching(attach) => self.sought(attach, after),
            Life::Running(handle, splitter) => self.ran(handle, splitter, after),
            Life::Resting(left) => if left > 1 {
                after == self.at(Life::Resting((left - 1) as u32))
            } else {
                exists|attach: Attach| is_new_search(attach) && #[trigger] self.sought(attach, after)
            },
        }
    }

    /// Between ticks, a search is at rest.
    pub open spec fn settled(self) -> bool {
        self.life matches Life::Searching(attach) ==> attach.place is Rest
    }

    /// One tick.
    pub fn tick(&mut self)
        requires
            old(self).wf(),
            old(self).settled(),
        ensures
            final(self).wf(),
            final(self).settled(),
            old(self).ticked(*final(self)),
    {
        let mut life = Life::Begin;
        core::mem::swap(&mut life, &mut self.life);
        let ghost here = *self;
        match life {
            Life::Begin => {
                let mut out: Vec<Action> = Vec::new();
                out.push(Action::Log(Note::Greeting));
                out.push(Action::ClearStatus);
                assert(out@ =~= seq![Action::Log(Note::Greeting), Action::ClearStatus]);
                perform_all(&mut self.world, &out);
                let ghost said = self.world;
                proof {
                    lemma_registered(old(self).world, out@, said);
                }
                self.register();
                let ghost mid = *self;
                assert(World {
                    registered_settings: old(self).world.registered_settings,
                    ..mid.world
                } == said);
                let attach = Attach::new();
                let ghost new = attach;
                self.seek(attach);
                assert(mid.sought(new, *self));
            },
            Life::Searching(attach) => {
                self.seek(attach);
                proof {
                    lemma_sought(here, *old(self), attach, *self);
                }
            },
            Life::Running(handle, splitter) => {
                self.run_on(handle, splitter);
                proof {
                    lemma_ran(here, *old(self), handle, splitter, *self);
                }
            },
            Life::Resting(left) => {
                if left > 1 {
                    self.life = Life::Resting(left - 1);
                } else {
                    let attach = Attach::new();
                    let ghost new = attach;
                    self.seek(attach);
                    proof {
                        lemma_sought(here, *old(self), new, *self);
                        assert(old(self).sought(new, *self));
                    }
                }
            },
        }
    }

    /// Drives the splitter for up to `ticks` ticks against a world, and gives the
    /// world back.
    pub fn run(self, ticks: usize) -> (drive: Self)
        requires
            self.wf(),
            self.settled(),
        ensures
            drive.wf(),
            drive.settled(),
            driven(self, ticks as nat, drive),
    {
        let mut drive = self;
        let mut i: usize = 0;
        while i < ticks
            invariant
                i <= ticks,
                drive.wf(),
                drive.settled(),
                driven(self, i as nat, drive),
            decreases ticks - i,
        {
            let ghost before = drive;
            drive.tick();
            proof {
                lemma_driven(self, i as nat, before, drive);
            }
            i = i + 1;
        }
        drive
    }
}

/// What the splitter was doing before does not matter to a search.
proof fn lemma_sought<M: Memory>(one: Drive<M>, other: Drive<M>, attach: Attach, after: Drive<M>)
    requires
        one.sought(attach, after),
        one.world == other.world,
    ensures
        other.sought(attach, after),
{
    let found = choose|found: Drive<M>|
        {
            &&& #[trigger] one.looked(attach, found)
            &&& match found.life {
                Life::Running(handle, splitter) => found.ran(handle, splitter, after),
                _ => after == found,
            }
        };
    let (steps, last) = choose|steps: nat, last: Chase<M>| #[trigger]
        one.chases(attach, steps, last, found);
    assert(other.chases(attach, steps, last, found));
    assert(other.looked(attach, found));
}

/// Where a number of ticks leads.
pub open spec fn driven<M: Memory>(from: Drive<M>, ticks: nat, to: Drive<M>) -> bool
    decreases ticks,
{
    if ticks == 0 {
        to == from
    } else {
        exists|mid: Drive<M>|
            driven(from, (ticks - 1) as nat, mid) && #[trigger] mid.ticked(to)
    }
}

proof fn lemma_driven<M: Memory>(from: Drive<M>, ticks: nat, mid: Drive<M>, to: Drive<M>)
    requires
        driven(from, ticks, mid),
        mid.ticked(to),
    ensures
        driven(from, ticks + 1, to),
{
}

proof fn lemma_registered<M: Memory>(before: World<M>, actions: Seq<Action>, world: World<M>)
    requires
        all_performed(before, actions, world),
    ensures
        world == (World { log: world.log, timer: world.timer, ..before }),
    decreases actions.len(),
{
    if actions.len() > 0 {
        let mid = choose|mid: World<M>|
            {
                &&& all_performed(before, actions.drop_last(), mid)
                &&& #[trigger] performed(mid, actions.last(), world)
            };
        lemma_registered(before, actions.drop_last(), mid);
    }
}

/// Drives the splitter for `ticks` ticks against `world`, and gives the world
/// back.
pub fn drive<M: Memory>(world: World<M>, ticks: usize) -> (after: World<M>)
    requires
        world.wf(),
    ensures
        after.wf(),
        exists|end: Drive<M>| #[trigger]
            driven(Drive { world, life: Life::Begin }, ticks as nat, end) && end.world == after,
{
    let drive = Drive::new(world).run(ticks);
    drive.world
}

} // verus!
