//! Replaying a recorded sequence, so the splitter sees the world change.
//!
//! A single capture can only say what was true at one instant. A split is a
//! *change*, so testing that one fires needs memory that differs between one
//! tick and the next. That is all this is: the steps of a recording, served in
//! order, advancing when told.
//!
//! The substitution is closer to honest than it looks. Every step is a capture
//! of the same process, and Unity ships Mono with the Boehm collector, which
//! does not move objects -- so an object has the same address in every step it
//! is alive for. Swapping one step for the next between ticks shows the splitter
//! the same addresses holding their new values, which is what actually happened,
//! minus the time in between.
use vstd::prelude::*;

use crate::live::module_views;
use crate::memory::{FakeProcess, Memory, MemoryRange, ModuleInfo};
use crate::snapshot::{contents_in, copy_modules, copy_ranges, Snapshot};
use crate::text::owned;

verus! {

/// A recorded run, held open and served one step at a time.
pub struct Scenario {
    steps: Vec<Snapshot>,
    /// Which step reads currently come from.
    at: usize,
}

/// What happened at a step, or nothing where the capture does not say.
pub open spec fn event_of(step: Snapshot) -> Seq<char> {
    match step.metadata.step {
        Some(step) => step.event@,
        None => Seq::empty(),
    }
}

fn event_at(step: &Snapshot) -> (event: String)
    ensures
        event@ == event_of(*step),
{
    match &step.metadata.step {
        Some(step) => owned(step.event.as_str()),
        None => {
            let event = String::new();
            assert(event@ =~= Seq::<char>::empty());
            event
        },
    }
}

/// The step after `at`, or the same one at the end of the recording.
pub open spec fn next_of(len: nat, at: nat) -> nat {
    if at + 1 < len {
        at + 1
    } else {
        at
    }
}

impl Scenario {
    #[verifier::type_invariant]
    spec fn in_the_run(&self) -> bool {
        self.at < self.steps@.len()
    }

    /// The steps, in order.
    pub closed spec fn steps(self) -> Seq<Snapshot> {
        self.steps@
    }

    /// Which step is being served.
    pub closed spec fn at(self) -> nat {
        self.at as nat
    }

    /// The step being served.
    pub open spec fn now(self) -> Snapshot {
        self.steps()[self.at() as int]
    }

    /// Holds a recording open at its first step. One with no steps is refused,
    /// with the reason.
    pub fn open(steps: Vec<Snapshot>) -> (result: Result<Self, String>)
        ensures
            match result {
                Ok(scenario) => steps@.len() > 0 && scenario.steps() == steps@ && scenario.at()
                    == 0,
                Err(reason) => steps@.len() == 0 && reason@ == "a scenario with no steps"@,
            },
    {
        if steps.len() == 0 {
            return Err(owned("a scenario with no steps"));
        }
        Ok(Scenario { steps, at: 0 })
    }

    pub fn len(&self) -> (n: usize)
        ensures
            n == self.steps().len(),
    {
        self.steps.len()
    }

    pub fn is_empty(&self) -> (empty: bool)
        ensures
            empty == (self.steps().len() == 0),
    {
        self.steps.len() == 0
    }

    /// What the splitter did to make each step a moment worth keeping, in
    /// order: `begin`, `start`, `split`, `split`, ...
    pub fn events(&self) -> (events: Vec<String>)
        ensures
            events@.len() == self.steps().len(),
            forall|i: int|
                0 <= i < events@.len() ==> (#[trigger] events@[i])@ == event_of(self.steps()[i]),
    {
        let mut events: Vec<String> = Vec::new();
        let mut i: usize = 0;
        while i < self.steps.len()
            invariant
                i <= self.steps@.len(),
                events@.len() == i,
                forall|k: int|
                    0 <= k < i ==> (#[trigger] events@[k])@ == event_of(self.steps()[k]),
            decreases self.steps@.len() - i,
        {
            events.push(event_at(&self.steps[i]));
            i = i + 1;
        }
        events
    }

    pub fn game_version(&self) -> (version: &str)
        ensures
            version@ == self.steps()[0].metadata.game_version@,
    {
        proof {
            use_type_invariant(self);
        }
        self.steps[0].metadata.game_version.as_str()
    }

    /// The process to hand to a world, with the scenario behind its addresses.
    pub fn into_process(self) -> (process: FakeProcess<Scenario>)
        ensures
            process.pid == self.steps()[0].metadata.pid,
            process.name@ == self.steps()[0].metadata.process_name@,
            process.path is None,
            module_views(process.modules@) == module_views(self.now().modules@),
            process.ranges@ == self.now().ranges@,
            process.runtime is None,
            process.open,
            process.memory == self,
    {
        proof {
            use_type_invariant(&self);
        }
        let (modules, ranges) = self.tables();
        FakeProcess {
            pid: self.steps[0].metadata.pid as u64,
            name: owned(self.steps[0].metadata.process_name.as_str()),
            path: None,
            modules,
            ranges,
            memory: self,
            runtime: None,
            open: true,
        }
    }

    /// Moves to the next step. Returns false at the end of the recording, which
    /// holds the last step rather than nothing.
    pub fn advance(&mut self) -> (moved: bool)
        ensures
            moved == (old(self).at() + 1 < old(self).steps().len()),
            final(self).at() == next_of(old(self).steps().len(), old(self).at()),
            final(self).steps() == old(self).steps(),
    {
        proof {
            use_type_invariant(&*self);
        }
        let count: usize = self.steps.len();
        if self.at + 1 >= count {
            return false;
        }
        self.at = self.at + 1;
        true
    }

    pub fn position(&self) -> (at: usize)
        ensures
            at == self.at(),
    {
        self.at
    }

    /// What the splitter did at the step now being served.
    pub fn event(&self) -> (event: String)
        ensures
            event@ == event_of(self.now()),
    {
        proof {
            use_type_invariant(self);
        }
        event_at(&self.steps[self.at])
    }

    /// The mapping tables of the step now being served.
    pub fn tables(&self) -> (tables: (Vec<ModuleInfo>, Vec<MemoryRange>))
        ensures
            module_views(tables.0@) == module_views(self.now().modules@),
            tables.1@ == self.now().ranges@,
    {
        proof {
            use_type_invariant(self);
        }
        let step: &Snapshot = &self.steps[self.at];
        (copy_modules(&step.modules), copy_ranges(&step.ranges))
    }

    /// The name of the directory of the step now being served.
    pub fn directory(&self) -> (name: &str)
        ensures
            name@ == self.now().directory_name@,
    {
        proof {
            use_type_invariant(self);
        }
        self.steps[self.at].directory_name.as_str()
    }
}

/// Reads come from whichever step the scenario is currently at.
impl Memory for Scenario {
    open spec fn contents(&self, address: u64, len: nat) -> Option<Seq<u8>> {
        contents_in(self.now().image(), self.now().table(), address, len)
    }

    fn read(&self, address: u64, buf: &mut [u8]) -> (ok: bool) {
        proof {
            use_type_invariant(self);
        }
        let step: &Snapshot = &self.steps[self.at];
        let ok = step.read(address, buf);
        assert(forall|at: u64, n: nat| #[trigger] self.contents(at, n) == step.contents(at, n));
        ok
    }
}

/// Moves the process of a recorded run to the next step: the bytes and the
/// tables. A run's mappings grow as it goes, and a table fixed at the first step
/// would leave the splitter sweeping a fraction of the heap.
pub fn advance_process(process: &mut FakeProcess<Scenario>) -> (moved: bool)
    ensures
        moved == (old(process).memory.at() + 1 < old(process).memory.steps().len()),
        final(process).memory.steps() == old(process).memory.steps(),
        final(process).memory.at() == next_of(
            old(process).memory.steps().len(),
            old(process).memory.at(),
        ),
        moved ==> module_views(final(process).modules@) == module_views(
            final(process).memory.now().modules@,
        ),
        moved ==> final(process).ranges@ == final(process).memory.now().ranges@,
        !moved ==> final(process).modules == old(process).modules && final(process).ranges == old(
            process,
        ).ranges,
        *final(process) == (FakeProcess {
            modules: final(process).modules,
            ranges: final(process).ranges,
            memory: final(process).memory,
            ..*old(process)
        }),
{
    if !process.memory.advance() {
        return false;
    }
    let (modules, ranges) = process.memory.tables();
    process.modules = modules;
    process.ranges = ranges;
    true
}

} // verus!
