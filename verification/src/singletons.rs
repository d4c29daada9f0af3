//! The game scene's DI container, and finding services inside it.
//!
//! Every service the splitter watches is a singleton built by Timberborn's DI
//! container, and the container keeps all of them in one array. Reaching that
//! array costs a search; every service in it is then a lookup rather than a
//! search of its own.
//!
//! The path is `SingletonRepository._singletonListener` ->
//! `SingletonListener._allSingletons`, an `ImmutableArray<object>`. A field of
//! that type is a struct wrapping one `object[]`, so the field slot holds the
//! array reference directly.
//!
//! There is more than one container alive at a time and they have to be told
//! apart, which is what `required` in [`ContainerSearch`] is for.
//!
//! # What this is not
//!
//! It is **not** an "is a game loaded" signal. The game's container is still
//! alive at the same address after exiting to the main menu. Knowing whether a
//! game is loaded remains the scene loader's job.
//!
//! # Why the contents are cached, and re-read a chunk at a time
//!
//! Identifying a singleton means reading its vtable -- one round trip through
//! Wine apiece, and a container holds hundreds. So the contents are read once
//! into [`Registry::entries`], a chunk per tick, and every lookup after that is
//! free. Registering another singleton replaces the array rather than growing
//! it: the snapshot can go stale, and [`Refresh`] retakes it.
use vstd::prelude::*;

use crate::collections::{ARRAY_DATA, ARRAY_LENGTH};
use crate::locate::{
    answer_note, answering, fresh_search, mark_answered, mark_missing, missing, note_answer,
};
use crate::memory::{
    field_pointer, i64_at, offset_by, plus, pointer_at, read_i64, read_pointer, read_pointer_raw,
    word_in, word_of, Memory, MemoryRange,
};
use crate::metadata::Module;
use crate::note::{Note, Why};
use crate::scan::{words_at, Scan, DEFAULT_BUDGET};
use crate::service::{class_vtable, field_offset, locatable, Locatable};
use crate::table::{Progress, ReferenceTable, TableSearch};

verus! {

/// Refuse to walk an array longer than this. Anything on a different scale
/// means the field was misread rather than that the game grew.
pub const MAX_SINGLETONS: i64 = 8192;

/// How many containers a search will collect.
///
/// This is a safety valve, not a working limit. Every abandoned game leaves a
/// container behind until it is collected, so they accumulate over a session,
/// and a freshly built one is not necessarily among the first found.
pub const MAX_CONTAINERS: usize = 256;

/// How many entries to read before yielding. The reads go through the same
/// wineserver the game does, so a whole container in one tick stalls the game.
pub const CHUNK: usize = 96;

/// How a container is laid out, and how one is recognised.
#[derive(Clone, Copy)]
pub struct Layout {
    pub class: Locatable,
    pub listener_offset: u32,
    pub all_singletons_offset: u32,
}

/// The container layout as the metadata gives it. Not a DI service itself, so
/// it is validated through the listener it holds.
pub open spec fn layout_of(module: Module) -> Option<Layout> {
    match module.vtable("Timberborn.SingletonSystem"@, "SingletonListener"@) {
        Some(listener_vtable) => match (
            locatable(
                module,
                "Timberborn.SingletonSystem",
                "SingletonRepository",
                "_singletonListener"@,
                listener_vtable,
            ),
            module.offset("Timberborn.SingletonSystem"@, "SingletonRepository"@, "_singletonListener"@),
            module.offset("Timberborn.SingletonSystem"@, "SingletonListener"@, "_allSingletons"@),
        ) {
            (Some(class), Some(listener_offset), Some(all_singletons_offset)) => Some(
                Layout { class, listener_offset, all_singletons_offset },
            ),
            _ => None,
        },
        None => None,
    }
}

impl Layout {
    /// The container layout, once every name in it resolves.
    pub fn resolve(module: &Module) -> (layout: Option<Self>)
        ensures
            layout == layout_of(*module),
    {
        let listener_vtable: u64 = match class_vtable(
            module,
            "Timberborn.SingletonSystem",
            "SingletonListener",
        ) {
            Some(vtable) => vtable,
            None => {
                return None;
            },
        };
        let class = Locatable::with_validator(
            module,
            "Timberborn.SingletonSystem",
            "SingletonRepository",
            "_singletonListener",
            listener_vtable,
        );
        let listener_offset = field_offset(
            module,
            "Timberborn.SingletonSystem",
            "SingletonRepository",
            "_singletonListener",
        );
        let all_singletons_offset = field_offset(
            module,
            "Timberborn.SingletonSystem",
            "SingletonListener",
            "_allSingletons",
        );
        match (class, listener_offset, all_singletons_offset) {
            (Some(class), Some(listener_offset), Some(all_singletons_offset)) => Some(
                Layout { class, listener_offset, all_singletons_offset },
            ),
            _ => None,
        }
    }

    /// Every non-null reference the container at `repository` holds.
    pub open spec fn held<M: Memory>(self, memory: &M, repository: u64) -> Option<Seq<u64>> {
        match field_pointer(memory, repository, self.listener_offset) {
            Some(listener) => match field_pointer(memory, listener, self.all_singletons_offset) {
                Some(array) => match i64_at(memory, plus(array, ARRAY_LENGTH)) {
                    Some(length) => if 0 <= length <= MAX_SINGLETONS {
                        match words_at(memory, plus(array, ARRAY_DATA), length as int) {
                            Some(words) => Some(words.filter(|word: u64| word != 0)),
                            None => None,
                        }
                    } else {
                        None
                    },
                    None => None,
                },
                None => None,
            },
            None => None,
        }
    }

    /// Every non-null reference the container holds, in one read.
    pub fn references<M: Memory>(&self, memory: &M, repository: u64) -> (references: Option<
        Vec<u64>,
    >)
        ensures
            references is Some <==> self.held(memory, repository) is Some,
            references matches Some(r) ==> r@ == self.held(memory, repository)->0,
    {
        let listener: u64 = match read_pointer(memory, repository, self.listener_offset) {
            Some(listener) => listener,
            None => {
                return None;
            },
        };
        let array: u64 = match read_pointer(memory, listener, self.all_singletons_offset) {
            Some(array) => array,
            None => {
                return None;
            },
        };
        let length: i64 = match read_i64(memory, offset_by(array, ARRAY_LENGTH)) {
            Some(length) => length,
            None => {
                return None;
            },
        };
        if length < 0 || length > MAX_SINGLETONS {
            return None;
        }
        let n: usize = length as usize;
        let mut buf: Vec<u8> = vec![0u8; 8 * n];
        if !memory.read(offset_by(array, ARRAY_DATA), buf.as_mut_slice()) {
            return None;
        }
        let ghost words = Seq::new(n as nat, |i: int| word_of(buf@, i));
        let mut references: Vec<u64> = Vec::new();
        let mut i: usize = 0;
        proof {
            reveal(Seq::filter);
            assert(words.take(0) =~= Seq::<u64>::empty());
        }
        while i < n
            invariant
                i <= n,
                buf@.len() == 8 * n,
                words == Seq::new(n as nat, |i: int| word_of(buf@, i)),
                references@ == words.take(i as int).filter(|word: u64| word != 0),
            decreases n - i,
        {
            let word: u64 = word_in(buf.as_slice(), i);
            proof {
                reveal(Seq::filter);
                assert(words.take(i + 1).drop_last() =~= words.take(i as int));
                assert(words.take(i + 1).last() == word);
            }
            if word != 0 {
                references.push(word);
            }
            i = i + 1;
        }
        assert(words.take(i as int) =~= words);
        Some(references)
    }
}

/// The objects whose class could be read, each after its vtable.
pub open spec fn identified<M: Memory>(memory: &M, objects: Seq<u64>) -> Seq<(u64, u64)>
    decreases objects.len(),
{
    if objects.len() == 0 {
        Seq::empty()
    } else {
        let rest = identified(memory, objects.drop_last());
        match pointer_at(memory, objects.last()) {
            Some(vtable) => rest.push((vtable, objects.last())),
            None => rest,
        }
    }
}

/// The first instance of the class with that vtable.
pub open spec fn instance_of(entries: Seq<(u64, u64)>, vtable: u64) -> Option<u64>
    decreases entries.len(),
{
    if entries.len() == 0 {
        None
    } else if entries[0].0 == vtable {
        Some(entries[0].1)
    } else {
        instance_of(entries.drop_first(), vtable)
    }
}

fn find_instance(entries: &Vec<(u64, u64)>, vtable: u64) -> (instance: Option<u64>)
    ensures
        instance == instance_of(entries@, vtable),
{
    let mut i: usize = 0;
    assert(entries@.skip(0) =~= entries@);
    while i < entries.len()
        invariant
            i <= entries@.len(),
            instance_of(entries@, vtable) == instance_of(entries@.skip(i as int), vtable),
        decreases entries@.len() - i,
    {
        assert(entries@.skip(i as int).drop_first() =~= entries@.skip(i + 1));
        if entries[i].0 == vtable {
            return Some(entries[i].1);
        }
        i = i + 1;
    }
    None
}

/// A container's contents being re-read, a chunk per tick.
///
/// One bulk read gets every reference; the vtable that identifies each one then
/// costs a read apiece, and those are what have to be spread out.
pub struct Refresh {
    pub references: Vec<u64>,
    pub index: usize,
    pub entries: Vec<(u64, u64)>,
}

/// What a [`Refresh`] holds.
pub type Retake = (Seq<u64>, int, Seq<(u64, u64)>);

/// The end of the chunk that starts at `index`.
pub open spec fn chunk_end(len: nat, index: int) -> int {
    if len - index < CHUNK {
        len as int
    } else {
        index + CHUNK
    }
}

/// With one more chunk read.
pub open spec fn chunk_read<M: Memory>(memory: &M, retake: Retake) -> Retake {
    let (references, index, entries) = retake;
    let end = chunk_end(references.len(), index);
    (references, end, entries + identified(memory, references.subrange(index, end)))
}

impl View for Refresh {
    type V = Retake;

    open spec fn view(&self) -> Retake {
        (self.references@, self.index as int, self.entries@)
    }
}

impl Refresh {
    pub open spec fn wf(self) -> bool {
        self.index <= self.references@.len()
    }

    /// Reads a chunk. Returns `true`, having read nothing, once there is none
    /// left.
    pub fn step<M: Memory>(&mut self, memory: &M) -> (done: bool)
        requires
            old(self).wf(),
        ensures
            final(self).wf(),
            done == (old(self).index >= old(self).references@.len()),
            done ==> *final(self) == *old(self),
            !done ==> final(self)@ == chunk_read(memory, old(self)@),
    {
        let len: usize = self.references.len();
        if self.index >= len {
            return true;
        }
        let end: usize = if len - self.index < CHUNK {
            len
        } else {
            self.index + CHUNK
        };
        let ghost from = self.index as int;
        let ghost had = self.entries@;
        assert(self.references@.subrange(from, from) =~= Seq::<u64>::empty());
        assert(had + Seq::<(u64, u64)>::empty() =~= had);
        while self.index < end
            invariant
                0 <= from <= self.index <= end <= self.references@.len(),
                self.references@ == old(self).references@,
                self.entries@ == had + identified(
                    memory,
                    self.references@.subrange(from, self.index as int),
                ),
            decreases end - self.index,
        {
            let object: u64 = self.references[self.index];
            let ghost seen = self.references@.subrange(from, self.index + 1);
            assert(seen.drop_last() =~= self.references@.subrange(from, self.index as int));
            if let Some(vtable) = read_pointer_raw(memory, object) {
                self.entries.push((vtable, object));
                assert(self.entries@ =~= had + identified(memory, seen));
            }
            self.index = self.index + 1;
        }
        false
    }
}

/// One game scene's DI container.
pub struct Registry {
    pub layout: Layout,
    pub repository: u64,
    /// Every singleton it has built, as (vtable, instance).
    pub entries: Vec<(u64, u64)>,
}

impl Registry {
    /// The instance of the class with this vtable, if the snapshot has one.
    ///
    /// Free: no reads at all. Refreshing is what costs.
    pub fn lookup(&self, vtable: u64) -> (instance: Option<u64>)
        ensures
            instance == instance_of(self.entries@, vtable),
    {
        find_instance(&self.entries, vtable)
    }

    /// Begins re-reading the container's contents. `None` where they cannot be
    /// read, and the snapshot stays as it is.
    pub fn refresh<M: Memory>(&self, memory: &M) -> (refresh: Option<Refresh>)
        ensures
            refresh is Some <==> self.layout.held(memory, self.repository) is Some,
            refresh matches Some(r) ==> r.wf() && r@ == (
                self.layout.held(memory, self.repository)->0,
                0int,
                Seq::<(u64, u64)>::empty(),
            ),
    {
        match self.layout.references(memory, self.repository) {
            Some(references) => {
                let refresh = Refresh { references, index: 0, entries: Vec::new() };
                Some(refresh)
            },
            None => None,
        }
    }

    /// Whether the container is still the object we think it is.
    pub fn still_valid<M: Memory>(&self, memory: &M) -> (valid: bool)
        ensures
            valid == self.layout.class.validator.admits(memory, self.repository),
    {
        self.layout.class.still_valid(memory, self.repository)
    }

    /// The container's address, to be skipped when the next game is resolved.
    pub fn address(&self) -> (address: u64)
        ensures
            address == self.repository,
    {
        self.repository
    }
}

/// What a search picks a container by.
#[derive(Clone, Copy)]
pub struct Wanted {
    pub layout: Layout,
    /// The container of the game just left, which stays alive and holds a clock
    /// of its own, so it would otherwise match first.
    pub skip: Option<u64>,
    /// The vtable of a class only the game scene's container has -- the clock.
    pub required: u64,
}

/// Candidates being gone through for the first that is not the one just left
/// and does hold the required class.
pub struct Pick {
    pub candidates: Vec<u64>,
    pub index: usize,
    /// The contents of the candidate at `index`, as far as they have been read.
    pub refresh: Option<Refresh>,
}

/// How going through the candidates is getting on.
pub enum Picking {
    Pending,
    Picked(Registry),
    NoneOfThem,
}

/// Where a tick's worth of going through candidates ends.
pub enum Sought {
    /// At this candidate, with its contents read this far.
    Reading(int, Retake),
    /// At this one, which holds these.
    Is(int, Seq<(u64, u64)>),
    /// Past the last.
    NoneOfThem,
}

/// Going through `candidates` from `index` on, whose contents have been read as
/// far as `retake` says, for one tick.
pub open spec fn sought<M: Memory>(
    memory: &M,
    wanted: Wanted,
    candidates: Seq<u64>,
    index: int,
    retake: Option<Retake>,
) -> Sought
    decreases candidates.len() - index,
{
    if index >= candidates.len() {
        Sought::NoneOfThem
    } else {
        match retake {
            Some(retake) => if retake.1 < retake.0.len() {
                Sought::Reading(index, chunk_read(memory, retake))
            } else if instance_of(retake.2, wanted.required) is Some {
                Sought::Is(index, retake.2)
            } else {
                sought(memory, wanted, candidates, index + 1, None)
            },
            None => {
                let held = wanted.layout.held(memory, candidates[index]);
                if wanted.skip == Some(candidates[index]) || held is None || held->0.len() == 0 {
                    sought(memory, wanted, candidates, index + 1, None)
                } else {
                    Sought::Reading(index, chunk_read(memory, (held->0, 0, Seq::empty())))
                }
            },
        }
    }
}

impl Pick {
    pub open spec fn wf(self) -> bool {
        self.refresh matches Some(refresh) ==> refresh.wf()
    }

    pub open spec fn retake(self) -> Option<Retake> {
        match self.refresh {
            Some(refresh) => Some(refresh@),
            None => None,
        }
    }

    pub fn begin(candidates: Vec<u64>) -> (pick: Self)
        ensures
            pick.wf(),
            pick.candidates == candidates,
            pick.index == 0,
            pick.refresh is None,
    {
        Pick { candidates, index: 0, refresh: None }
    }

    /// What a tick leads to.
    pub open spec fn stepped<M: Memory>(
        self,
        memory: &M,
        wanted: Wanted,
        after: Pick,
        picking: Picking,
        said: Seq<Note>,
    ) -> bool {
        match sought(memory, wanted, self.candidates@, self.index as int, self.retake()) {
            Sought::Reading(index, retake) => {
                &&& picking is Pending
                &&& after.candidates@ == self.candidates@
                &&& after.index == index
                &&& after.retake() == Some(retake)
                &&& said == Seq::<Note>::empty()
            },
            Sought::Is(index, entries) => {
                let repository = self.candidates@[index];
                &&& picking matches Picking::Picked(registry) && registry.layout == wanted.layout
                    && registry.repository == repository && registry.entries@ == entries
                &&& said == seq![Note::ContainerAt { address: repository }]
            },
            Sought::NoneOfThem => picking is NoneOfThem && said == Seq::<Note>::empty(),
        }
    }

    /// Goes on through the candidates until something has to be read in the
    /// next tick.
    #[verifier::loop_isolation(false)]
    pub fn step<M: Memory>(&mut self, memory: &M, wanted: &Wanted, log: &mut Vec<Note>) -> (picking:
        Picking)
        requires
            old(self).wf(),
        ensures
            picking is Pending ==> final(self).wf(),
            old(log)@.is_prefix_of(final(log)@),
            old(self).stepped(
                memory,
                *wanted,
                *final(self),
                picking,
                final(log)@.skip(old(log)@.len() as int),
            ),
    {
        let ghost whole = sought(
            memory,
            *wanted,
            self.candidates@,
            self.index as int,
            self.retake(),
        );
        assert(log@.skip(old(log)@.len() as int) =~= Seq::<Note>::empty());
        while self.index < self.candidates.len()
            invariant
                self.wf(),
                self.candidates@ == old(self).candidates@,
                log@ == old(log)@,
                whole == sought(
                    memory,
                    *wanted,
                    self.candidates@,
                    self.index as int,
                    self.retake(),
                ),
            decreases
                self.candidates@.len() - self.index,
                if self.refresh is Some {
                    0int
                } else {
                    1
                },
        {
            let repository: u64 = self.candidates[self.index];
            let mut current: Option<Refresh> = None;
            core::mem::swap(&mut current, &mut self.refresh);
            let mut refresh = match current {
                Some(refresh) => refresh,
                None => {
                    let skipped = match wanted.skip {
                        Some(skip) => skip == repository,
                        None => false,
                    };
                    let references = if skipped {
                        None
                    } else {
                        wanted.layout.references(memory, repository)
                    };
                    match references {
                        Some(references) => if references.len() > 0 {
                            Refresh { references, index: 0, entries: Vec::new() }
                        } else {
                            self.index = self.index + 1;
                            continue ;
                        },
                        None => {
                            self.index = self.index + 1;
                            continue ;
                        },
                    }
                },
            };
            if !refresh.step(memory) {
                self.refresh = Some(refresh);
                return Picking::Pending;
            }
            let required = find_instance(&refresh.entries, wanted.required);
            if required.is_some() {
                let found = Note::ContainerAt { address: repository };
                log.push(found);
                assert(log@.skip(old(log)@.len() as int) =~= seq![found]);
                return Picking::Picked(
                    Registry { layout: wanted.layout, repository, entries: refresh.entries },
                );
            }
            self.index = self.index + 1;
        }
        Picking::NoneOfThem
    }
}

/// The outcome of looking for the container.
pub struct Search {
    pub registry: Option<Registry>,
    /// Ranges holding a pointer to the anchor, when the sweep was asked to
    /// notice one in passing. The caller identifies the table from these; see
    /// [`crate::table::Identify`].
    pub table_candidates: Vec<(u64, u64)>,
    /// Whether an empty result actually means "not there". A scan proves
    /// absence only if it read everything it set out to read, and memory goes
    /// transiently unreadable during a scene teardown -- which is exactly when
    /// this runs.
    pub conclusive: bool,
}

impl Search {
    /// Nothing found, and nothing proven: a name did not resolve, so no search
    /// happened at all.
    pub fn inconclusive() -> (search: Self)
        ensures
            search.registry is None,
            search.table_candidates@.len() == 0,
            !search.conclusive,
    {
        Search { registry: None, table_candidates: Vec::new(), conclusive: false }
    }
}

/// Where a search for the container has got to.
pub enum ContainerStage {
    /// Nothing read yet.
    Begin,
    Table(TableSearch),
    /// Going through what the table held.
    PickHeld(Pick),
    Sweep(Scan),
    /// Going through what a sweep found.
    PickSwept { pick: Pick, conclusive: bool, table_candidates: Vec<(u64, u64)> },
}

impl ContainerStage {
    /// How far a search has come: what is tried first, and what only after it.
    pub open spec fn rank(self) -> u32 {
        match self {
            ContainerStage::Begin => 0,
            ContainerStage::Table(_) => 1,
            ContainerStage::PickHeld(_) => 2,
            ContainerStage::Sweep(_) => 3,
            ContainerStage::PickSwept { .. } => 4,
        }
    }
}

impl ContainerSearch {
    /// How far the search has come.
    pub fn rank(&self) -> (rank: u32)
        ensures
            rank == self.stage.rank(),
            rank <= 4,
    {
        match self.stage {
            ContainerStage::Begin => 0,
            ContainerStage::Table(_) => 1,
            ContainerStage::PickHeld(_) => 2,
            ContainerStage::Sweep(_) => 3,
            ContainerStage::PickSwept { .. } => 4,
        }
    }
}

/// A search for the container that holds the required class.
///
/// The reference table first. Whether a container is the right one takes a walk
/// of its contents over several ticks, so a table search that turns up
/// candidates none of which hold the clock is not an answer, and falls through
/// to the sweep.
pub struct ContainerSearch {
    pub wanted: Wanted,
    /// Something already located, for the sweep to notice references to on its
    /// way past. Only worth passing when there is no table.
    pub anchor: Option<u64>,
    pub stage: ContainerStage,
}

/// How a search for the container is getting on.
pub enum Searching {
    Pending,
    Done(Search),
}

impl ContainerSearch {
    pub open spec fn wf(self) -> bool {
        match self.stage {
            ContainerStage::Begin => true,
            ContainerStage::Table(search) => search.wf(),
            ContainerStage::PickHeld(pick) => pick.wf(),
            ContainerStage::Sweep(scan) => scan.wf(),
            ContainerStage::PickSwept { pick, .. } => pick.wf(),
        }
    }

    /// The same search, somewhere else.
    pub open spec fn at(self, stage: ContainerStage) -> Self {
        ContainerSearch { stage, ..self }
    }

    /// The search goes on with a sweep.
    pub open spec fn falls_back(
        self,
        ranges: Seq<MemoryRange>,
        why: Why,
        after: ContainerSearch,
        said: Seq<Note>,
    ) -> bool {
        &&& after.wanted == self.wanted
        &&& after.anchor == self.anchor
        &&& after.stage matches ContainerStage::Sweep(scan) && self.wanted.layout.class.fresh_sweep(
            ranges,
            Some(MAX_CONTAINERS),
            self.anchor,
            scan,
        )
        &&& said == seq![Note::SweepStarting { name: self.wanted.layout.class.name, why }]
    }

    /// What a tick leads to.
    pub open spec fn stepped<M: Memory>(
        self,
        memory: &M,
        ranges: Seq<MemoryRange>,
        table: Option<ReferenceTable>,
        after: ContainerSearch,
        table_after: Option<ReferenceTable>,
        result: Searching,
        said: Seq<Note>,
    ) -> bool {
        match self.stage {
            ContainerStage::Begin => {
                &&& result is Pending
                &&& match table {
                    Some(t) => {
                        &&& table_after == Some(t.extended(ranges).0)
                        &&& if t.extends(ranges) is Some {
                            &&& after == self.at(after.stage)
                            &&& after.stage matches ContainerStage::Table(search) && fresh_search(
                                self.wanted.layout.class,
                                MAX_CONTAINERS,
                                t,
                                ranges,
                                search,
                            )
                            &&& said == t.extended(ranges).1
                        } else {
                            self.falls_back(ranges, Why::TableUnreadable, after, said)
                        }
                    },
                    None => table_after is None && self.falls_back(
                        ranges,
                        Why::NoTable,
                        after,
                        said,
                    ),
                }
            },
            ContainerStage::Table(search) => exists|next: TableSearch, progress: Progress|
                {
                    &&& #[trigger] search.stepped(memory, DEFAULT_BUDGET as int, next, progress)
                    &&& next.continues(search)
                    &&& result is Pending
                    &&& table_after == table
                    &&& match progress {
                        Progress::Pending => {
                            &&& after == self.at(ContainerStage::Table(next))
                            &&& said == Seq::<Note>::empty()
                        },
                        Progress::Unreadable => self.falls_back(
                            ranges,
                            Why::TableUnreadable,
                            after,
                            said,
                        ),
                        Progress::Finished => {
                            &&& after == self.at(after.stage)
                            &&& after.stage matches ContainerStage::PickHeld(pick)
                                && pick.candidates@ == next.instances@ && pick.index == 0
                                && pick.refresh is None
                            &&& said == answer_note(
                                self.wanted.layout.class.name,
                                next.instances@,
                            )
                        },
                    }
                },
            ContainerStage::PickHeld(pick) => exists|next: Pick, picking: Picking, log: Seq<Note>|
                {
                    &&& #[trigger] pick.stepped(memory, self.wanted, next, picking, log)
                    &&& match picking {
                        Picking::Pending => {
                            &&& result is Pending
                            &&& after == self.at(ContainerStage::PickHeld(next))
                            &&& table_after == table
                            &&& said == log
                        },
                        Picking::Picked(registry) => {
                            &&& result matches Searching::Done(search) && search.registry == Some(
                                registry,
                            ) && search.table_candidates@.len() == 0 && !search.conclusive
                            &&& table_after == answering(table)
                            &&& said == log
                        },
                        Picking::NoneOfThem => {
                            &&& result is Pending
                            &&& table_after == table
                            &&& self.falls_back(
                                ranges,
                                if pick.candidates@.len() == 0 {
                                    Why::TableHasNoContainer
                                } else {
                                    Why::NoneThisGames(pick.candidates@.len() as usize)
                                },
                                after,
                                said,
                            )
                        },
                    }
                },
            ContainerStage::Sweep(scan) => exists|next: Scan, done: bool|
                {
                    &&& #[trigger] scan.stepped(memory, DEFAULT_BUDGET as int, next, done)
                    &&& result is Pending
                    &&& table_after == table
                    &&& if !done {
                        &&& after == self.at(ContainerStage::Sweep(next))
                        &&& said == Seq::<Note>::empty()
                    } else {
                        &&& after == self.at(after.stage)
                        &&& after.stage matches ContainerStage::PickSwept {
                            pick,
                            conclusive,
                            table_candidates,
                        } && pick.candidates@ == next.found@ && pick.index == 0
                            && pick.refresh is None && conclusive == (next.stats.bytes_total > 0
                            && next.stats.bytes_unreadable == 0) && table_candidates@
                            == next.anchor_ranges@
                        &&& said == seq![self.wanted.layout.class.sweep_note(next)]
                    }
                },
            ContainerStage::PickSwept {
                pick,
                conclusive,
                table_candidates,
            } => exists|next: Pick, picking: Picking, log: Seq<Note>|
                {
                    &&& #[trigger] pick.stepped(memory, self.wanted, next, picking, log)
                    &&& said == log
                    &&& match picking {
                        Picking::Pending => {
                            &&& result is Pending
                            &&& after == self.at(
                                ContainerStage::PickSwept {
                                    pick: next,
                                    conclusive,
                                    table_candidates,
                                },
                            )
                            &&& table_after == table
                        },
                        Picking::Picked(registry) => {
                            &&& result == Searching::Done(
                                Search { registry: Some(registry), table_candidates, conclusive },
                            )
                            &&& table_after == missing(table)
                        },
                        Picking::NoneOfThem => {
                            &&& result == Searching::Done(
                                Search { registry: None, table_candidates, conclusive },
                            )
                            &&& table_after == table
                        },
                    }
                },
        }
    }

    /// Begins a search for the container, given its layout.
    pub fn begin(wanted: Wanted, anchor: Option<u64>) -> (search: Self)
        ensures
            search.wf(),
            search == (ContainerSearch { wanted, anchor, stage: ContainerStage::Begin }),
    {
        ContainerSearch { wanted, anchor, stage: ContainerStage::Begin }
    }

    fn sweep_from(
        wanted: Wanted,
        anchor: Option<u64>,
        ranges: &[MemoryRange],
        why: Why,
        log: &mut Vec<Note>,
    ) -> (search: Self)
        ensures
            search.wf(),
            old(log)@.is_prefix_of(final(log)@),
            forall|stage: ContainerStage|
                (ContainerSearch { wanted, anchor, stage }).falls_back(
                    ranges@,
                    why,
                    search,
                    final(log)@.skip(old(log)@.len() as int),
                ),
    {
        let scan = wanted.layout.class.sweep(ranges, Some(MAX_CONTAINERS), why, anchor, log);
        assert(log@.skip(old(log)@.len() as int) =~= seq![
            Note::SweepStarting { name: wanted.layout.class.name, why },
        ]);
        ContainerSearch { wanted, anchor, stage: ContainerStage::Sweep(scan) }
    }

    /// One tick of the search.
    pub fn step<M: Memory>(
        self,
        memory: &M,
        ranges: &[MemoryRange],
        table: &mut Option<ReferenceTable>,
        log: &mut Vec<Note>,
    ) -> (result: (Self, Searching))
        requires
            self.wf(),
        ensures
            result.1 is Pending ==> result.0.wf(),
            old(log)@.is_prefix_of(final(log)@),
            self.stepped(
                memory,
                ranges@,
                *old(table),
                result.0,
                *final(table),
                result.1,
                final(log)@.skip(old(log)@.len() as int),
            ),
    {
        let ContainerSearch { wanted, anchor, stage } = self;
        let ghost from = old(log)@.len() as int;
        match stage {
            ContainerStage::Begin => {
                let mut why: Why = Why::NoTable;
                let class = wanted.layout.class;
                if let Some(t) = table {
                    match t.instances(ranges, class.vtable, class.validator, MAX_CONTAINERS, log) {
                        Some(search) => {
                            assert(log@.skip(from) =~= old(table)->0.extended(ranges@).1);
                            let next = ContainerSearch {
                                wanted,
                                anchor,
                                stage: ContainerStage::Table(search),
                            };
                            return (next, Searching::Pending);
                        },
                        None => {
                            why = Why::TableUnreadable;
                        },
                    }
                }
                assert(log@ =~= old(log)@);
                (Self::sweep_from(wanted, anchor, ranges, why, log), Searching::Pending)
            },
            ContainerStage::Table(mut search) => {
                let ghost before = search;
                let progress = search.step(memory, DEFAULT_BUDGET);
                assert(before.stepped(memory, DEFAULT_BUDGET as int, search, progress));
                match progress {
                    Progress::Pending => {
                        assert(log@.skip(from) =~= Seq::<Note>::empty());
                        let next = ContainerSearch {
                            wanted,
                            anchor,
                            stage: ContainerStage::Table(search),
                        };
                        (next, Searching::Pending)
                    },
                    Progress::Unreadable => {
                        let next = Self::sweep_from(
                            wanted,
                            anchor,
                            ranges,
                            Why::TableUnreadable,
                            log,
                        );
                        (next, Searching::Pending)
                    },
                    Progress::Finished => {
                        note_answer(wanted.layout.class.name, &search.instances, log);
                        assert(log@.skip(from) =~= answer_note(
                            wanted.layout.class.name,
                            search.instances@,
                        ));
                        let pick = Pick::begin(search.instances);
                        let next = ContainerSearch {
                            wanted,
                            anchor,
                            stage: ContainerStage::PickHeld(pick),
                        };
                        (next, Searching::Pending)
                    },
                }
            },
            ContainerStage::PickHeld(mut pick) => {
                let ghost before = pick;
                let held: usize = pick.candidates.len();
                let picking = pick.step(memory, &wanted, log);
                let ghost said = log@.skip(from);
                assert(before.stepped(memory, wanted, pick, picking, said));
                match picking {
                    Picking::Pending => {
                        let next = ContainerSearch {
                            wanted,
                            anchor,
                            stage: ContainerStage::PickHeld(pick),
                        };
                        (next, Searching::Pending)
                    },
                    Picking::Picked(registry) => {
                        mark_answered(table);
                        let over = ContainerSearch { wanted, anchor, stage: ContainerStage::Begin };
                        let search = Search {
                            registry: Some(registry),
                            table_candidates: Vec::new(),
                            conclusive: false,
                        };
                        (over, Searching::Done(search))
                    },
                    Picking::NoneOfThem => {
                        let why = if held == 0 {
                            Why::TableHasNoContainer
                        } else {
                            Why::NoneThisGames(held)
                        };
                        proof {
                            assert(said.len() == 0);
                            assert(log@.len() == from + said.len());
                            assert(log@.take(from) =~= old(log)@);
                            assert(log@ =~= log@.take(from));
                        }
                        (Self::sweep_from(wanted, anchor, ranges, why, log), Searching::Pending)
                    },
                }
            },
            ContainerStage::Sweep(mut scan) => {
                let ghost before = scan;
                let done = scan.step(memory, DEFAULT_BUDGET);
                assert(before.stepped(memory, DEFAULT_BUDGET as int, scan, done));
                if !done {
                    assert(log@.skip(from) =~= Seq::<Note>::empty());
                    let next = ContainerSearch {
                        wanted,
                        anchor,
                        stage: ContainerStage::Sweep(scan),
                    };
                    return (next, Searching::Pending);
                }
                let ghost note = wanted.layout.class.sweep_note(scan);
                let found = wanted.layout.class.swept(scan, log);
                assert(log@.skip(from) =~= seq![note]);
                let pick = Pick::begin(found.instances);
                let next = ContainerSearch {
                    wanted,
                    anchor,
                    stage: ContainerStage::PickSwept {
                        pick,
                        conclusive: found.conclusive,
                        table_candidates: found.table_candidates,
                    },
                };
                (next, Searching::Pending)
            },
            ContainerStage::PickSwept { mut pick, conclusive, table_candidates } => {
                let ghost before = pick;
                let picking = pick.step(memory, &wanted, log);
                assert(before.stepped(memory, wanted, pick, picking, log@.skip(from)));
                let over = ContainerSearch { wanted, anchor, stage: ContainerStage::Begin };
                match picking {
                    Picking::Pending => {
                        let next = ContainerSearch {
                            wanted,
                            anchor,
                            stage: ContainerStage::PickSwept { pick, conclusive, table_candidates },
                        };
                        (next, Searching::Pending)
                    },
                    Picking::Picked(registry) => {
                        // The sweep answered what the table could not, which is
                        // what a table that has stopped being the runtime's
                        // looks like from here.
                        mark_missing(table);
                        let search = Search {
                            registry: Some(registry),
                            table_candidates,
                            conclusive,
                        };
                        (over, Searching::Done(search))
                    },
                    Picking::NoneOfThem => {
                        let search = Search { registry: None, table_candidates, conclusive };
                        (over, Searching::Done(search))
                    },
                }
            },
        }
    }
}

} // verus!
