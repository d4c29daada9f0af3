//! A fake auto splitting runtime, so the splitter can be driven without a game.
//!
//! A [`World`] is everything the runtime knows, and everything it recorded: the
//! processes there are, the settings, the timer and the log. [`Drive`] runs the
//! splitter against one, tick by tick.
use vstd::prelude::*;

use crate::memory::{FakeProcess, Memory, MemoryRange, ModuleInfo};
use crate::text::{contains_text, occurs, owned, same};
use crate::timer::{after, tally, Timer, TimerEvent, TimerState};

verus! {

/// Everything the fake runtime knows, and everything it recorded.
pub struct World<M: Memory> {
    pub processes: Vec<FakeProcess<M>>,
    pub timer: Timer,
    /// Every line the splitter logged, in order.
    pub log: Vec<String>,
    /// The most recent tick rate asked for, in ticks per second.
    pub tick_rate: Option<u32>,
    /// What the runtime reports itself to be running on.
    pub os: String,
    pub arch: String,
    /// Settings that are forced, by key. Anything absent takes the value the
    /// splitter declared as its default.
    pub settings: Vec<(String, bool)>,
    /// Keys the splitter registered, in registration order, with their declared
    /// defaults.
    pub registered_settings: Vec<(String, bool)>,
    /// Attached process handles. Index + 1 is the handle; `None` once detached.
    pub attached: Vec<Option<usize>>,
    /// Live setting values, by handle.
    pub values: Vec<(u64, bool)>,
    pub next_value: u64,
}

/// The value under `key`: the first, of which there is at most one.
pub open spec fn setting_in(settings: Seq<(String, bool)>, key: Seq<char>) -> Option<bool>
    decreases settings.len(),
{
    if settings.len() == 0 {
        None
    } else if settings[0].0@ == key {
        Some(settings[0].1)
    } else {
        setting_in(settings.drop_first(), key)
    }
}

/// The value under `handle`.
pub open spec fn value_in(values: Seq<(u64, bool)>, handle: u64) -> Option<bool>
    decreases values.len(),
{
    if values.len() == 0 {
        None
    } else if values[0].0 == handle {
        Some(values[0].1)
    } else {
        value_in(values.drop_first(), handle)
    }
}

/// The first open process, from `i` on, of that name.
pub open spec fn open_named<M: Memory>(
    processes: Seq<FakeProcess<M>>,
    name: Seq<char>,
    i: int,
) -> Option<usize>
    decreases processes.len() - i,
{
    if i >= processes.len() {
        None
    } else if processes[i].open && processes[i].name@ == name {
        Some(i as usize)
    } else {
        open_named(processes, name, i + 1)
    }
}

/// The first open process, from `i` on, with that pid.
pub open spec fn open_with_pid<M: Memory>(
    processes: Seq<FakeProcess<M>>,
    pid: u64,
    i: int,
) -> Option<usize>
    decreases processes.len() - i,
{
    if i >= processes.len() {
        None
    } else if processes[i].open && processes[i].pid == pid {
        Some(i as usize)
    } else {
        open_with_pid(processes, pid, i + 1)
    }
}

/// The pids of the open processes of that name, in order.
pub open spec fn pids_named<M: Memory>(processes: Seq<FakeProcess<M>>, name: Seq<char>) -> Seq<u64>
    decreases processes.len(),
{
    if processes.len() == 0 {
        Seq::empty()
    } else {
        let rest = pids_named(processes.drop_last(), name);
        if processes.last().open && processes.last().name@ == name {
            rest.push(processes.last().pid)
        } else {
            rest
        }
    }
}

/// The first module of that name.
pub open spec fn module_named(modules: Seq<ModuleInfo>, name: Seq<char>) -> Option<ModuleInfo>
    decreases modules.len(),
{
    if modules.len() == 0 {
        None
    } else if modules[0].name@ == name {
        Some(modules[0])
    } else {
        module_named(modules.drop_first(), name)
    }
}

impl<M: Memory> World<M> {
    /// Every attached handle is of a process there is.
    pub open spec fn wf(self) -> bool {
        &&& forall|i: int|
            0 <= i < self.attached@.len() ==> (#[trigger] self.attached@[i] matches Some(p) ==> p
                < self.processes@.len())
        &&& distinct_keys(self.settings@)
    }

    /// The process behind a handle.
    pub open spec fn index_of(self, handle: u64) -> Option<usize> {
        if 1 <= handle <= self.attached@.len() {
            self.attached@[handle - 1]
        } else {
            None
        }
    }

    pub fn new() -> (world: Self)
        ensures
            world.wf(),
            world.processes@.len() == 0,
            world.timer.state is NotRunning,
            world.timer.events@.len() == 0,
            world.log@.len() == 0,
            world.tick_rate is None,
            world.os@ == "linux"@,
            world.arch@ == "x86_64"@,
            world.settings@.len() == 0,
            world.registered_settings@.len() == 0,
            world.attached@.len() == 0,
            world.values@.len() == 0,
            world.next_value == 1,
    {
        World {
            processes: Vec::new(),
            timer: Timer::default(),
            log: Vec::new(),
            tick_rate: None,
            os: owned("linux"),
            arch: owned("x86_64"),
            settings: Vec::new(),
            registered_settings: Vec::new(),
            attached: Vec::new(),
            values: Vec::new(),
            next_value: 1,
        }
    }

    /// The same world, with one more process.
    pub fn with_process(self, process: FakeProcess<M>) -> (world: Self)
        requires
            self.wf(),
        ensures
            world.wf(),
            world.processes@ == self.processes@.push(process),
            world == (World { processes: world.processes, ..self }),
    {
        let mut world = self;
        world.processes.push(process);
        world
    }

    /// A process appears.
    pub fn add_process(&mut self, process: FakeProcess<M>)
        requires
            old(self).wf(),
        ensures
            final(self).wf(),
            final(self).processes@ == old(self).processes@.push(process),
            *final(self) == (World { processes: final(self).processes, ..*old(self) }),
    {
        self.processes.push(process);
    }

    /// The same world, with a setting forced over the default the splitter
    /// declares.
    pub fn with_setting(self, key: &str, value: bool) -> (world: Self)
        requires
            self.wf(),
        ensures
            world.wf(),
            setting_in(world.settings@, key@) == Some(value),
            forall|other: Seq<char>|
                other != key@ ==> #[trigger] setting_in(world.settings@, other) == setting_in(
                    self.settings@,
                    other,
                ),
            world == (World { settings: world.settings, ..self }),
    {
        let mut world = self;
        force(&mut world.settings, key, value);
        world
    }

    /// Whether any logged line contains `needle`. The splitter's observable
    /// behaviour is mostly its log, so most assertions go through this.
    pub fn logged(&self, needle: &str) -> (logged: bool)
        ensures
            logged == exists|i: int|
                0 <= i < self.log@.len() && occurs((#[trigger] self.log@[i])@, needle@),
    {
        let mut i: usize = 0;
        while i < self.log.len()
            invariant
                i <= self.log@.len(),
                forall|k: int| 0 <= k < i ==> !occurs((#[trigger] self.log@[k])@, needle@),
            decreases self.log@.len() - i,
        {
            if contains_text(self.log[i].as_str(), needle) {
                assert(occurs(self.log@[i as int]@, needle@));
                return true;
            }
            i = i + 1;
        }
        false
    }

    /// The process behind a handle, if it names one.
    pub fn process_index(&self, handle: u64) -> (index: Option<usize>)
        ensures
            index == self.index_of(handle),
    {
        if handle == 0 || handle > self.attached.len() as u64 {
            return None;
        }
        self.attached[(handle - 1) as usize]
    }

    /// The process behind a handle, if it names one.
    pub fn process(&self, handle: u64) -> (process: Option<&FakeProcess<M>>)
        requires
            self.wf(),
        ensures
            process is Some <==> self.index_of(handle) is Some,
            process matches Some(p) ==> *p == self.processes@[self.index_of(handle)->0 as int],
    {
        match self.process_index(handle) {
            Some(index) => {
                assert(self.attached@[handle - 1] matches Some(p) ==> p < self.processes@.len());
                Some(&self.processes[index])
            },
            None => None,
        }
    }
}

/// No key occurs twice.
pub open spec fn distinct_keys(settings: Seq<(String, bool)>) -> bool {
    forall|i: int, j: int|
        0 <= i < j < settings.len() ==> (#[trigger] settings[i]).0@ != (#[trigger] settings[j]).0@
}

proof fn lemma_setting_at(settings: Seq<(String, bool)>, key: Seq<char>, i: int)
    requires
        0 <= i < settings.len(),
        settings[i].0@ == key,
        forall|j: int| 0 <= j < i ==> (#[trigger] settings[j]).0@ != key,
    ensures
        setting_in(settings, key) == Some(settings[i].1),
    decreases i,
{
    if i > 0 {
        let rest = settings.drop_first();
        assert(settings[0].0@ != key);
        assert forall|j: int| 0 <= j < i - 1 implies (#[trigger] rest[j]).0@ != key by {
            assert(rest[j] == settings[j + 1]);
        }
        lemma_setting_at(rest, key, i - 1);
    }
}

proof fn lemma_no_setting(settings: Seq<(String, bool)>, key: Seq<char>)
    requires
        forall|j: int| 0 <= j < settings.len() ==> (#[trigger] settings[j]).0@ != key,
    ensures
        setting_in(settings, key) is None,
    decreases settings.len(),
{
    if settings.len() > 0 {
        let rest = settings.drop_first();
        assert(settings[0].0@ != key);
        assert forall|j: int| 0 <= j < rest.len() implies (#[trigger] rest[j]).0@ != key by {
            assert(rest[j] == settings[j + 1]);
        }
        lemma_no_setting(rest, key);
    }
}

/// Two lists that agree on everything but what is under `key`, in place.
proof fn lemma_setting_kept(
    before: Seq<(String, bool)>,
    after: Seq<(String, bool)>,
    i: int,
    key: Seq<char>,
    other: Seq<char>,
)
    requires
        0 <= i < after.len(),
        before.len() == after.len() || (before.len() == i && after.len() == i + 1),
        forall|j: int| 0 <= j < before.len() && j != i ==> #[trigger] before[j] == after[j],
        after[i].0@ == key,
        i < before.len() ==> before[i].0@ == key,
        other != key,
    ensures
        setting_in(after, other) == setting_in(before, other),
    decreases after.len(),
{
    if i > 0 {
        let b = before.drop_first();
        let a = after.drop_first();
        assert(before[0] == after[0]);
        assert forall|j: int| 0 <= j < b.len() && j != i - 1 implies #[trigger] b[j] == a[j] by {
            assert(before[j + 1] == after[j + 1]);
        }
        assert(a[i - 1] == after[i]);
        if i < before.len() {
            assert(b[i - 1] == before[i]);
        }
        lemma_setting_kept(b, a, i - 1, key, other);
    } else if before.len() > 0 {
        assert(before.drop_first() =~= after.drop_first());
    } else {
        assert(after.drop_first() =~= Seq::<(String, bool)>::empty());
    }
}

/// Puts `value` under `key`, over what was there.
fn force(settings: &mut Vec<(String, bool)>, key: &str, value: bool)
    requires
        distinct_keys(old(settings)@),
    ensures
        distinct_keys(final(settings)@),
        setting_in(final(settings)@, key@) == Some(value),
        forall|other: Seq<char>|
            other != key@ ==> #[trigger] setting_in(final(settings)@, other) == setting_in(
                old(settings)@,
                other,
            ),
        final(settings)@.len() == old(settings)@.len() + (if setting_in(
            old(settings)@,
            key@,
        ) is Some {
            0int
        } else {
            1
        }),
{
    let mut i: usize = 0;
    while i < settings.len()
        invariant
            i <= settings@.len(),
            settings@ == old(settings)@,
            distinct_keys(settings@),
            forall|j: int| 0 <= j < i ==> (#[trigger] settings@[j]).0@ != key@,
        decreases settings@.len() - i,
    {
        if same(settings[i].0.as_str(), key) {
            proof {
                lemma_setting_at(settings@, key@, i as int);
            }
            settings[i] = (owned(key), value);
            proof {
                lemma_setting_at(settings@, key@, i as int);
                assert forall|other: Seq<char>| other != key@ implies #[trigger] setting_in(
                    settings@,
                    other,
                ) == setting_in(old(settings)@, other) by {
                    lemma_setting_kept(old(settings)@, settings@, i as int, key@, other);
                }
                assert forall|k: int, j: int| 0 <= k < j < settings@.len() implies (
                #[trigger] settings@[k]).0@ != (#[trigger] settings@[j]).0@ by {
                    assert(settings@[k].0@ == old(settings)@[k].0@);
                    assert(settings@[j].0@ == old(settings)@[j].0@);
                }
            }
            return ;
        }
        i = i + 1;
    }
    proof {
        lemma_no_setting(settings@, key@);
    }
    settings.push((owned(key), value));
    proof {
        assert forall|j: int| 0 <= j < i implies (#[trigger] settings@[j]).0@ != key@ by {
            assert(settings@[j] == old(settings)@[j]);
        }
        lemma_setting_at(settings@, key@, i as int);
        assert forall|other: Seq<char>| other != key@ implies #[trigger] setting_in(
            settings@,
            other,
        ) == setting_in(old(settings)@, other) by {
            lemma_setting_kept(old(settings)@, settings@, i as int, key@, other);
        }
    }
}

/// The value under `key`.
fn look_up(settings: &Vec<(String, bool)>, key: &str) -> (value: Option<bool>)
    ensures
        value == setting_in(settings@, key@),
{
    let mut i: usize = 0;
    while i < settings.len()
        invariant
            i <= settings@.len(),
            forall|j: int| 0 <= j < i ==> (#[trigger] settings@[j]).0@ != key@,
        decreases settings@.len() - i,
    {
        if same(settings[i].0.as_str(), key) {
            proof {
                lemma_setting_at(settings@, key@, i as int);
            }
            return Some(settings[i].1);
        }
        i = i + 1;
    }
    proof {
        lemma_no_setting(settings@, key@);
    }
    None
}

/// The out-buffer protocol of the runtime: the capacity goes in and the length
/// actually needed comes out. Too small is a failure with the needed length
/// told, not a truncated success.
pub fn fill(bytes: &[u8], buf: &mut [u8]) -> (result: (usize, bool))
    ensures
        result.0 == bytes@.len(),
        result.1 == (bytes@.len() <= old(buf)@.len()),
        final(buf)@ == if bytes@.len() <= old(buf)@.len() {
            bytes@ + old(buf)@.skip(bytes@.len() as int)
        } else {
            old(buf)@
        },
{
    if bytes.len() > buf.len() {
        return (bytes.len(), false);
    }
    let mut i: usize = 0;
    while i < bytes.len()
        invariant
            i <= bytes@.len() <= buf@.len(),
            buf@ == bytes@.take(i as int) + old(buf)@.skip(i as int),
            buf@.len() == old(buf)@.len(),
        decreases bytes@.len() - i,
    {
        buf[i] = bytes[i];
        assert(buf@ =~= bytes@.take(i + 1) + old(buf)@.skip(i + 1));
        i = i + 1;
    }
    assert(bytes@.take(i as int) =~= bytes@);
    (bytes.len(), true)
}

/// What the runtime answers the splitter.
impl<M: Memory> World<M> {
    /// Attaches to the first open process of that name. Zero where there is
    /// none.
    pub fn attach(&mut self, name: &str) -> (handle: u64)
        requires
            old(self).wf(),
        ensures
            final(self).wf(),
            match open_named(old(self).processes@, name@, 0) {
                Some(index) => {
                    &&& final(self).attached@ == old(self).attached@.push(Some(index))
                    &&& handle == final(self).attached@.len()
                },
                None => handle == 0 && *final(self) == *old(self),
            },
            *final(self) == (World { attached: final(self).attached, ..*old(self) }),
    {
        let mut i: usize = 0;
        while i < self.processes.len()
            invariant
                i <= self.processes@.len(),
                *self == *old(self),
                self.wf(),
                open_named(self.processes@, name@, 0) == open_named(
                    self.processes@,
                    name@,
                    i as int,
                ),
            decreases self.processes@.len() - i,
        {
            if self.processes[i].open && same(self.processes[i].name.as_str(), name) {
                self.attached.push(Some(i));
                return self.attached.len() as u64;
            }
            i = i + 1;
        }
        0
    }

    /// Attaches to the first open process with that pid. Zero where there is
    /// none.
    pub fn attach_by_pid(&mut self, pid: u64) -> (handle: u64)
        requires
            old(self).wf(),
        ensures
            final(self).wf(),
            match open_with_pid(old(self).processes@, pid, 0) {
                Some(index) => {
                    &&& final(self).attached@ == old(self).attached@.push(Some(index))
                    &&& handle == final(self).attached@.len()
                },
                None => handle == 0 && *final(self) == *old(self),
            },
            *final(self) == (World { attached: final(self).attached, ..*old(self) }),
    {
        let mut i: usize = 0;
        while i < self.processes.len()
            invariant
                i <= self.processes@.len(),
                *self == *old(self),
                self.wf(),
                open_with_pid(self.processes@, pid, 0) == open_with_pid(
                    self.processes@,
                    pid,
                    i as int,
                ),
            decreases self.processes@.len() - i,
        {
            if self.processes[i].open && self.processes[i].pid == pid {
                self.attached.push(Some(i));
                return self.attached.len() as u64;
            }
            i = i + 1;
        }
        0
    }

    /// Lets go of a handle. One that was never handed out changes nothing.
    pub fn detach(&mut self, handle: u64)
        requires
            old(self).wf(),
        ensures
            final(self).wf(),
            final(self).attached@ == if 1 <= handle <= old(self).attached@.len() {
                old(self).attached@.update(handle - 1, None)
            } else {
                old(self).attached@
            },
            *final(self) == (World { attached: final(self).attached, ..*old(self) }),
    {
        if handle >= 1 && handle <= self.attached.len() as u64 {
            self.attached[(handle - 1) as usize] = None;
        }
    }

    /// The pids of the open processes of that name.
    pub fn list_by_name(&self, name: &str) -> (pids: Vec<u64>)
        ensures
            pids@ == pids_named(self.processes@, name@),
    {
        let mut pids: Vec<u64> = Vec::new();
        let mut i: usize = 0;
        assert(self.processes@.take(0) =~= Seq::<FakeProcess<M>>::empty());
        while i < self.processes.len()
            invariant
                i <= self.processes@.len(),
                pids@ == pids_named(self.processes@.take(i as int), name@),
            decreases self.processes@.len() - i,
        {
            assert(self.processes@.take(i + 1).drop_last() =~= self.processes@.take(i as int));
            if self.processes[i].open && same(self.processes[i].name.as_str(), name) {
                pids.push(self.processes[i].pid);
            }
            i = i + 1;
        }
        assert(self.processes@.take(i as int) =~= self.processes@);
        pids
    }

    /// Whether a handle is of an open process.
    pub fn is_open(&self, handle: u64) -> (open: bool)
        requires
            self.wf(),
        ensures
            open == (self.index_of(handle) matches Some(p) && self.processes@[p as int].open),
    {
        match self.process(handle) {
            Some(process) => process.open,
            None => false,
        }
    }

    /// The bytes that a read through a handle gives.
    pub open spec fn reads(self, handle: u64, address: u64, len: nat) -> Option<Seq<u8>> {
        match self.index_of(handle) {
            Some(p) => self.processes@[p as int].memory.contents(address, len),
            None => None,
        }
    }

    /// Reads a process's memory.
    pub fn read(&self, handle: u64, address: u64, buf: &mut [u8]) -> (ok: bool)
        requires
            self.wf(),
        ensures
            final(buf)@.len() == old(buf)@.len(),
            ok == (self.reads(handle, address, old(buf)@.len()) is Some),
            ok ==> final(buf)@ == self.reads(handle, address, old(buf)@.len())->0,
    {
        match self.process(handle) {
            Some(process) => process.memory.read(address, buf),
            None => false,
        }
    }

    /// The module of that name in a process.
    pub open spec fn module_of(self, handle: u64, name: Seq<char>) -> Option<ModuleInfo> {
        match self.index_of(handle) {
            Some(p) => module_named(self.processes@[p as int].modules@, name),
            None => None,
        }
    }

    fn module(&self, handle: u64, name: &str) -> (module: Option<&ModuleInfo>)
        requires
            self.wf(),
        ensures
            module is Some <==> self.module_of(handle, name@) is Some,
            module matches Some(m) ==> *m == self.module_of(handle, name@)->0,
    {
        match self.process(handle) {
            Some(process) => find_module(&process.modules, name),
            None => None,
        }
    }

    /// Where a module is, or zero.
    pub fn module_address(&self, handle: u64, name: &str) -> (address: u64)
        requires
            self.wf(),
        ensures
            address == match self.module_of(handle, name@) {
                Some(module) => module.address,
                None => 0,
            },
    {
        match self.module(handle, name) {
            Some(module) => module.address,
            None => 0,
        }
    }

    /// How large a module is, or zero.
    pub fn module_size(&self, handle: u64, name: &str) -> (size: u64)
        requires
            self.wf(),
        ensures
            size == match self.module_of(handle, name@) {
                Some(module) => module.size,
                None => 0,
            },
    {
        match self.module(handle, name) {
            Some(module) => module.size,
            None => 0,
        }
    }

    /// The path a module was loaded from, where it is known.
    pub fn path_of_module(&self, handle: u64, name: &str) -> (path: Option<&String>)
        requires
            self.wf(),
        ensures
            path is Some <==> (self.module_of(handle, name@) matches Some(m) && m.path is Some),
            path matches Some(p) ==> Some(*p) == (self.module_of(handle, name@)->0).path,
    {
        match self.module(handle, name) {
            Some(module) => module.path.as_ref(),
            None => None,
        }
    }

    /// The path of a process, where it is known.
    pub fn path(&self, handle: u64) -> (path: Option<&String>)
        requires
            self.wf(),
        ensures
            path is Some <==> (self.index_of(handle) matches Some(i) && self.processes@[i as int].path
                is Some),
            path matches Some(p) ==> Some(*p) == self.processes@[(self.index_of(handle)->0) as int].path,
    {
        match self.process(handle) {
            Some(process) => process.path.as_ref(),
            None => None,
        }
    }

    /// How many ranges a process has mapped.
    pub fn range_count(&self, handle: u64) -> (count: u64)
        requires
            self.wf(),
        ensures
            count == match self.index_of(handle) {
                Some(p) => self.processes@[p as int].ranges@.len(),
                None => 0,
            },
    {
        match self.process(handle) {
            Some(process) => process.ranges.len() as u64,
            None => 0,
        }
    }

    /// A range of a process: its address, size and flags; all zero where there
    /// is none.
    pub fn range(&self, handle: u64, index: u64) -> (range: MemoryRange)
        requires
            self.wf(),
        ensures
            range == match self.index_of(handle) {
                Some(p) => if index < self.processes@[p as int].ranges@.len() {
                    self.processes@[p as int].ranges@[index as int]
                } else {
                    MemoryRange { address: 0, size: 0, flags: 0 }
                },
                None => MemoryRange { address: 0, size: 0, flags: 0 },
            },
    {
        match self.process(handle) {
            Some(process) => if index < process.ranges.len() as u64 {
                process.ranges[index as usize]
            } else {
                MemoryRange { address: 0, size: 0, flags: 0 }
            },
            None => MemoryRange { address: 0, size: 0, flags: 0 },
        }
    }

    /// The split the timer is at: before the first one while it is not running.
    pub fn current_split_index(&self) -> (index: i64)
        requires
            self.timer.events@.len() <= i64::MAX,
        ensures
            index == if self.timer.state is NotRunning {
                -1
            } else {
                tally(self.timer.events@, |e: TimerEvent| e is Split) as int
            },
    {
        match self.timer.state {
            TimerState::NotRunning => -1,
            _ => {
                proof {
                    self.timer.events@.lemma_filter_len(|e: TimerEvent| e is Split);
                }
                self.timer.splits() as i64
            },
        }
    }

    /// Registers a setting, and says what it is set to.
    pub fn add_bool(&mut self, key: &str, default_value: bool) -> (value: bool)
        ensures
            final(self).registered_settings@.len() == old(self).registered_settings@.len() + 1,
            final(self).registered_settings@.drop_last() == old(self).registered_settings@,
            final(self).registered_settings@.last().0@ == key@,
            final(self).registered_settings@.last().1 == default_value,
            value == match setting_in(old(self).settings@, key@) {
                Some(value) => value,
                None => default_value,
            },
            *final(self) == (World {
                registered_settings: final(self).registered_settings,
                ..*old(self)
            }),
    {
        self.registered_settings.push((owned(key), default_value));
        assert(self.registered_settings@.drop_last() =~= old(self).registered_settings@);
        match look_up(&self.settings, key) {
            Some(value) => value,
            None => default_value,
        }
    }

    /// What a setting is forced to, if it is.
    pub fn setting(&self, key: &str) -> (value: Option<bool>)
        ensures
            value == setting_in(self.settings@, key@),
    {
        look_up(&self.settings, key)
    }

    /// Puts a line in the log.
    pub fn print_message(&mut self, line: String)
        ensures
            final(self).log@ == old(self).log@.push(line),
            *final(self) == (World { log: final(self).log, ..*old(self) }),
    {
        self.log.push(line);
    }
}

/// Setting values go by handles, which are never used twice.
impl<M: Memory> World<M> {
    /// Every live value's handle was handed out, and none twice.
    pub open spec fn values_wf(self) -> bool {
        &&& self.next_value >= 1
        &&& forall|i: int|
            0 <= i < self.values@.len() ==> 1 <= (#[trigger] self.values@[i]).0 < self.next_value
        &&& forall|i: int, j: int|
            0 <= i < j < self.values@.len() ==> (#[trigger] self.values@[i]).0 != (
            #[trigger] self.values@[j]).0
    }

    /// Makes a value, and hands out its handle.
    pub fn value_new(&mut self, value: bool) -> (handle: u64)
        requires
            old(self).values_wf(),
            old(self).next_value < u64::MAX,
        ensures
            final(self).values_wf(),
            handle == old(self).next_value,
            final(self).next_value == handle + 1,
            final(self).values@ == old(self).values@.push((handle, value)),
            value_in(final(self).values@, handle) == Some(value),
            *final(self) == (World {
                values: final(self).values,
                next_value: final(self).next_value,
                ..*old(self)
            }),
    {
        let handle: u64 = self.next_value;
        self.next_value = self.next_value + 1;
        self.values.push((handle, value));
        proof {
            lemma_value_at(self.values@, self.values@.len() - 1);
        }
        handle
    }

    /// The value under a handle.
    pub fn value_get(&self, handle: u64) -> (value: Option<bool>)
        ensures
            value == value_in(self.values@, handle),
    {
        let mut i: usize = 0;
        assert(self.values@.skip(0) =~= self.values@);
        while i < self.values.len()
            invariant
                i <= self.values@.len(),
                value_in(self.values@, handle) == value_in(self.values@.skip(i as int), handle),
            decreases self.values@.len() - i,
        {
            assert(self.values@.skip(i as int).drop_first() =~= self.values@.skip(i + 1));
            if self.values[i].0 == handle {
                return Some(self.values[i].1);
            }
            i = i + 1;
        }
        None
    }

    /// A new handle for the value under a handle, or zero.
    pub fn value_copy(&mut self, handle: u64) -> (copy: u64)
        requires
            old(self).values_wf(),
            old(self).next_value < u64::MAX,
        ensures
            final(self).values_wf(),
            match value_in(old(self).values@, handle) {
                Some(value) => copy == old(self).next_value && final(self).values@ == old(
                    self,
                ).values@.push((copy, value)) && value_in(final(self).values@, copy) == Some(value),
                None => copy == 0 && *final(self) == *old(self),
            },
            *final(self) == (World {
                values: final(self).values,
                next_value: final(self).next_value,
                ..*old(self)
            }),
    {
        match self.value_get(handle) {
            Some(value) => self.value_new(value),
            None => 0,
        }
    }

    /// A handle for what a setting is forced to, or zero.
    pub fn map_get(&mut self, key: &str) -> (handle: u64)
        requires
            old(self).values_wf(),
            old(self).next_value < u64::MAX,
        ensures
            final(self).values_wf(),
            match setting_in(old(self).settings@, key@) {
                Some(value) => handle == old(self).next_value && value_in(
                    final(self).values@,
                    handle,
                ) == Some(value),
                None => handle == 0 && *final(self) == *old(self),
            },
            *final(self) == (World {
                values: final(self).values,
                next_value: final(self).next_value,
                ..*old(self)
            }),
    {
        match self.setting(key) {
            Some(value) => self.value_new(value),
            None => 0,
        }
    }

    /// Forces a setting to the value under a handle, if there is one.
    pub fn map_insert(&mut self, key: &str, handle: u64)
        requires
            old(self).wf(),
        ensures
            final(self).wf(),
            match value_in(old(self).values@, handle) {
                Some(value) => setting_in(final(self).settings@, key@) == Some(value),
                None => *final(self) == *old(self),
            },
            forall|other: Seq<char>|
                other != key@ ==> #[trigger] setting_in(final(self).settings@, other)
                    == setting_in(old(self).settings@, other),
            *final(self) == (World { settings: final(self).settings, ..*old(self) }),
    {
        if let Some(value) = self.value_get(handle) {
            force(&mut self.settings, key, value);
        }
    }

    /// Lets go of a value. A handle that names none changes nothing.
    pub fn value_free(&mut self, handle: u64)
        requires
            old(self).values_wf(),
        ensures
            final(self).values_wf(),
            value_in(final(self).values@, handle) is None,
            forall|other: u64|
                other != handle ==> #[trigger] value_in(final(self).values@, other) == value_in(
                    old(self).values@,
                    other,
                ),
            *final(self) == (World { values: final(self).values, ..*old(self) }),
    {
        let mut i: usize = 0;
        while i < self.values.len()
            invariant
                i <= self.values@.len(),
                *self == *old(self),
                self.values_wf(),
                forall|j: int| 0 <= j < i ==> (#[trigger] self.values@[j]).0 != handle,
            decreases self.values@.len() - i,
        {
            if self.values[i].0 == handle {
                self.values.remove(i);
                let ghost left = self.values@;
                proof {
                    let before = old(self).values@;
                    assert forall|j: int| 0 <= j < left.len() implies (#[trigger] left[j]).0
                        != handle by {
                        let k = if j < i {
                            j
                        } else {
                            j + 1
                        };
                        assert(left[j] == before[k]);
                        assert(before[i as int].0 == handle);
                    }
                    lemma_no_value(left, handle);
                    assert forall|other: u64| other != handle implies #[trigger] value_in(
                        left,
                        other,
                    ) == value_in(before, other) by {
                        lemma_value_kept(before, left, i as int, other);
                    }
                }
                return ;
            }
            i = i + 1;
        }
        proof {
            lemma_no_value(self.values@, handle);
        }
    }
}

proof fn lemma_value_at(values: Seq<(u64, bool)>, i: int)
    requires
        0 <= i < values.len(),
        forall|j: int| 0 <= j < i ==> (#[trigger] values[j]).0 != values[i].0,
    ensures
        value_in(values, values[i].0) == Some(values[i].1),
    decreases i,
{
    if i > 0 {
        let rest = values.drop_first();
        assert(values[0].0 != values[i].0);
        assert forall|j: int| 0 <= j < i - 1 implies (#[trigger] rest[j]).0 != rest[i - 1].0 by {
            assert(rest[j] == values[j + 1]);
        }
        lemma_value_at(rest, i - 1);
    }
}

proof fn lemma_no_value(values: Seq<(u64, bool)>, handle: u64)
    requires
        forall|j: int| 0 <= j < values.len() ==> (#[trigger] values[j]).0 != handle,
    ensures
        value_in(values, handle) is None,
    decreases values.len(),
{
    if values.len() > 0 {
        let rest = values.drop_first();
        assert(values[0].0 != handle);
        assert forall|j: int| 0 <= j < rest.len() implies (#[trigger] rest[j]).0 != handle by {
            assert(rest[j] == values[j + 1]);
        }
        lemma_no_value(rest, handle);
    }
}

proof fn lemma_value_kept(before: Seq<(u64, bool)>, after: Seq<(u64, bool)>, i: int, other: u64)
    requires
        0 <= i < before.len(),
        after == before.remove(i),
        before[i].0 != other,
    ensures
        value_in(after, other) == value_in(before, other),
    decreases i,
{
    if i > 0 {
        assert(after[0] == before[0]);
        assert(after.drop_first() =~= before.drop_first().remove(i - 1));
        lemma_value_kept(before.drop_first(), after.drop_first(), i - 1, other);
    } else {
        assert(after =~= before.drop_first());
    }
}

fn find_module<'a>(modules: &'a Vec<ModuleInfo>, name: &str) -> (module: Option<&'a ModuleInfo>)
    ensures
        module is Some <==> module_named(modules@, name@) is Some,
        module matches Some(m) ==> *m == module_named(modules@, name@)->0,
{
    let mut i: usize = 0;
    assert(modules@.skip(0) =~= modules@);
    while i < modules.len()
        invariant
            i <= modules@.len(),
            module_named(modules@, name@) == module_named(modules@.skip(i as int), name@),
        decreases modules@.len() - i,
    {
        assert(modules@.skip(i as int).drop_first() =~= modules@.skip(i + 1));
        if same(modules[i].name.as_str(), name) {
            return Some(&modules[i]);
        }
        i = i + 1;
    }
    None
}

} // verus!
