//! Searching for an object: the reference table first, then a sweep.
//!
//! The sweep behind the table is what keeps the shortcut honest. The table holds
//! what the runtime is keeping alive, which is not provably everything the heap
//! holds, so a miss costs one wasted pass over a couple of megabytes rather than
//! a wrong answer.
//!
//! A search takes many ticks, so it is a value that is stepped: one slice of
//! reading at a time, with whatever else has to be read every tick in between.
use vstd::prelude::*;

use crate::memory::{i32_at, offset_by, plus, read_i32, Memory, MemoryRange};
use crate::note::{Note, Why};
use crate::scan::{counted32, Scan, DEFAULT_BUDGET};
use crate::service::{Found, Locatable};
use crate::table::{writable, Progress, RangeWalk, ReferenceTable, TableSearch};

verus! {

/// Which of the instances found will do.
///
/// Scanning during a scene load can turn up the outgoing world's object
/// alongside the incoming one's. Excluding a known address rules out one, and a
/// condition on the object's own state can tell the others apart.
#[derive(Clone, Copy)]
pub struct Accept {
    /// Not the one at this address.
    pub skip: Option<u64>,
    /// Only one whose number at this offset reads, and reads below this bound.
    pub below: Option<(u32, i32)>,
}

/// The first of `instances` that `accept` takes.
pub open spec fn first_taken<M: Memory>(memory: &M, accept: Accept, instances: Seq<u64>) -> Option<
    u64,
>
    decreases instances.len(),
{
    if instances.len() == 0 {
        None
    } else if accept.takes(memory, instances[0]) {
        Some(instances[0])
    } else {
        first_taken(memory, accept, instances.drop_first())
    }
}

impl Accept {
    pub open spec fn takes<M: Memory>(self, memory: &M, address: u64) -> bool {
        &&& self.skip != Some(address)
        &&& self.below matches Some((offset, bound)) ==> (i32_at(
            memory,
            plus(address, offset as u64),
        ) matches Some(state) && state < bound)
    }

    /// Anything that passed validation.
    pub fn any() -> (accept: Self)
        ensures
            accept == (Accept { skip: None, below: None }),
    {
        Accept { skip: None, below: None }
    }

    pub fn accepts<M: Memory>(&self, memory: &M, address: u64) -> (taken: bool)
        ensures
            taken == self.takes(memory, address),
    {
        if let Some(skip) = self.skip {
            if skip == address {
                return false;
            }
        }
        match self.below {
            Some((offset, bound)) => match read_i32(memory, offset_by(address, offset as u64)) {
                Some(state) => state < bound,
                None => false,
            },
            None => true,
        }
    }

    /// The first instance that will do.
    pub fn pick<M: Memory>(&self, memory: &M, instances: &Vec<u64>) -> (picked: Option<u64>)
        ensures
            picked == first_taken(memory, *self, instances@),
    {
        let mut i: usize = 0;
        assert(instances@.skip(0) =~= instances@);
        while i < instances.len()
            invariant
                i <= instances@.len(),
                first_taken(memory, *self, instances@) == first_taken(
                    memory,
                    *self,
                    instances@.skip(i as int),
                ),
            decreases instances@.len() - i,
        {
            assert(instances@.skip(i as int).drop_first() =~= instances@.skip(i + 1));
            if self.accepts(memory, instances[i]) {
                return Some(instances[i]);
            }
            i = i + 1;
        }
        None
    }
}

/// Where a search has got to.
pub enum Stage {
    Table(TableSearch),
    Sweep(Scan),
    /// There is nothing left to try.
    Over,
}

/// A search for one instance of a class.
pub struct Locate {
    pub class: Locatable,
    pub accept: Accept,
    pub limit: usize,
    /// False asks only the reference table. For a caller that can afford to be
    /// told "not yet" and ask again -- the run-start bind, which has a whole
    /// scene load to work in.
    pub may_sweep: bool,
    pub stage: Stage,
}

/// How a search is getting on.
pub enum Located {
    Pending,
    Done(Found),
}

/// Nothing found, and nothing proven.
pub open spec fn nothing(found: Found) -> bool {
    found.instances@.len() == 0 && !found.conclusive && found.table_candidates@.len() == 0
}

/// One instance, or none.
pub open spec fn singled(picked: Option<u64>) -> Seq<u64> {
    match picked {
        Some(instance) => seq![instance],
        None => Seq::empty(),
    }
}

/// The table, having answered a question.
pub open spec fn answering(table: Option<ReferenceTable>) -> Option<ReferenceTable> {
    match table {
        Some(table) => Some(ReferenceTable { misses: 0, ..table }),
        None => None,
    }
}

/// The table, having missed what a sweep then found.
pub open spec fn missing(table: Option<ReferenceTable>) -> Option<ReferenceTable> {
    match table {
        Some(table) => Some(ReferenceTable { misses: counted32(table.misses, 1), ..table }),
        None => None,
    }
}

/// What is said of a table search's result: how many it found, also where that
/// is none, so that a sweep behind it is seen to have been needed.
pub open spec fn answer_note(name: &'static str, instances: Seq<u64>) -> Seq<Note> {
    seq![Note::TableAnswered { name, count: instances.len() as usize }]
}

/// Notes a table search's result.
pub fn note_answer(name: &'static str, instances: &Vec<u64>, log: &mut Vec<Note>)
    ensures
        final(log)@ == old(log)@ + answer_note(name, instances@),
{
    let answered = Note::TableAnswered { name, count: instances.len() };
    log.push(answered);
    assert(log@ =~= old(log)@ + seq![answered]);
}

/// Marks the table as having answered.
pub fn mark_answered(table: &mut Option<ReferenceTable>)
    ensures
        *final(table) == answering(*old(table)),
{
    match table {
        Some(t) => t.answered(),
        None => {},
    }
}

/// Marks the table as having missed something.
pub fn mark_missing(table: &mut Option<ReferenceTable>)
    ensures
        *final(table) == missing(*old(table)),
{
    match table {
        Some(t) => t.was_missing(),
        None => {},
    }
}

/// A search through the table that has read nothing yet.
pub open spec fn fresh_search(
    class: Locatable,
    limit: usize,
    table: ReferenceTable,
    ranges: Seq<MemoryRange>,
    search: TableSearch,
) -> bool {
    &&& search.wf()
    &&& search.vtable == class.vtable
    &&& search.validator == class.validator
    &&& search.limit == limit
    &&& search.ranges@.to_multiset() == writable(ranges).to_multiset()
    &&& search.walk == (RangeWalk {
        base: table.base,
        size: table.extends(ranges)->0,
        offset: 0,
        read_any: false,
    })
    &&& search.entries@.len() == 0
    &&& !search.sorted
    &&& search.at == 0
    &&& search.instances@.len() == 0
}

impl Locate {
    pub open spec fn wf(self) -> bool {
        match self.stage {
            Stage::Table(search) => search.wf(),
            Stage::Sweep(scan) => scan.wf() && self.may_sweep,
            Stage::Over => true,
        }
    }

    /// The same search, somewhere else.
    pub open spec fn at(self, stage: Stage) -> Self {
        Locate { stage, ..self }
    }

    /// What a slice of a sweep leads to.
    pub open spec fn swept<M: Memory>(
        self,
        memory: &M,
        scan: Scan,
        table: Option<ReferenceTable>,
        after: Locate,
        table_after: Option<ReferenceTable>,
        result: Located,
        said: Seq<Note>,
    ) -> bool {
        exists|next: Scan, done: bool|
            {
                &&& #[trigger] scan.stepped(memory, DEFAULT_BUDGET as int, next, done)
                &&& if !done {
                    &&& result is Pending
                    &&& after == self.at(Stage::Sweep(next))
                    &&& table_after == table
                    &&& said == Seq::<Note>::empty()
                } else {
                    let picked = first_taken(memory, self.accept, next.found@);
                    &&& result matches Located::Done(found) && found.instances@ == singled(picked)
                        && found.conclusive == (next.stats.bytes_total > 0
                        && next.stats.bytes_unreadable == 0) && found.table_candidates@
                        == next.anchor_ranges@
                    &&& table_after == if picked is Some {
                        missing(table)
                    } else {
                        table
                    }
                    &&& said == seq![self.class.sweep_note(next)]
                }
            }
    }

    /// What falling back to a sweep, where that is allowed, leads to.
    pub open spec fn fell_back<M: Memory>(
        self,
        memory: &M,
        ranges: Seq<MemoryRange>,
        why: Why,
        table: Option<ReferenceTable>,
        after: Locate,
        table_after: Option<ReferenceTable>,
        result: Located,
        said: Seq<Note>,
    ) -> bool {
        if self.may_sweep {
            &&& said.len() > 0
            &&& said[0] == (Note::SweepStarting { name: self.class.name, why })
            &&& exists|fresh: Scan|
                {
                    &&& #[trigger] self.class.fresh_sweep(ranges, Some(self.limit), None, fresh)
                    &&& self.swept(
                        memory,
                        fresh,
                        table,
                        after,
                        table_after,
                        result,
                        said.drop_first(),
                    )
                }
        } else {
            &&& result matches Located::Done(found) && nothing(found)
            &&& table_after == table
            &&& said == Seq::<Note>::empty()
        }
    }

    /// What a step leads to.
    pub open spec fn stepped<M: Memory>(
        self,
        memory: &M,
        ranges: Seq<MemoryRange>,
        table: Option<ReferenceTable>,
        after: Locate,
        table_after: Option<ReferenceTable>,
        result: Located,
        said: Seq<Note>,
    ) -> bool {
        match self.stage {
            Stage::Over => {
                &&& result matches Located::Done(found) && nothing(found)
                &&& table_after == table
                &&& said == Seq::<Note>::empty()
            },
            Stage::Sweep(scan) => self.swept(
                memory,
                scan,
                table,
                after,
                table_after,
                result,
                said,
            ),
            Stage::Table(search) => exists|next: TableSearch, progress: Progress|
                {
                    &&& #[trigger] search.stepped(memory, DEFAULT_BUDGET as int, next, progress)
                    &&& next.continues(search)
                    &&& match progress {
                        Progress::Pending => {
                            &&& result is Pending
                            &&& after == self.at(Stage::Table(next))
                            &&& table_after == table
                            &&& said == Seq::<Note>::empty()
                        },
                        Progress::Unreadable => self.fell_back(
                            memory,
                            ranges,
                            Why::TableUnreadable,
                            table,
                            after,
                            table_after,
                            result,
                            said,
                        ),
                        Progress::Finished => {
                            let answered = answer_note(self.class.name, next.instances@);
                            let picked = first_taken(memory, self.accept, next.instances@);
                            if picked is Some {
                                &&& result matches Located::Done(found) && found.instances@
                                    == singled(picked) && !found.conclusive
                                    && found.table_candidates@.len() == 0
                                &&& table_after == if self.may_sweep {
                                    answering(table)
                                } else {
                                    table
                                }
                                &&& said == answered
                            } else {
                                &&& answered.is_prefix_of(said)
                                &&& self.fell_back(
                                    memory,
                                    ranges,
                                    if next.instances@.len() == 0 {
                                        Why::TableHasNone
                                    } else {
                                        Why::NoneAcceptable(next.instances@.len() as usize)
                                    },
                                    table,
                                    after,
                                    table_after,
                                    result,
                                    said.skip(answered.len() as int),
                                )
                            }
                        },
                    }
                },
        }
    }

    /// How a search begins: with the table where there is one that is mapped,
    /// else with the sweep, where that is allowed.
    pub open spec fn begun(
        self,
        ranges: Seq<MemoryRange>,
        table: Option<ReferenceTable>,
        table_after: Option<ReferenceTable>,
        said: Seq<Note>,
    ) -> bool {
        match table {
            Some(t) => {
                &&& table_after == Some(t.extended(ranges).0)
                &&& if t.extends(ranges) is Some {
                    &&& self.stage matches Stage::Table(search) && fresh_search(
                        self.class,
                        self.limit,
                        t,
                        ranges,
                        search,
                    )
                    &&& said == t.extended(ranges).1
                } else if self.may_sweep {
                    &&& self.stage matches Stage::Sweep(scan) && self.class.fresh_sweep(
                        ranges,
                        Some(self.limit),
                        None,
                        scan,
                    )
                    &&& said == seq![
                        Note::SweepStarting { name: self.class.name, why: Why::TableUnreadable },
                    ]
                } else {
                    self.stage is Over && said == Seq::<Note>::empty()
                }
            },
            None => {
                &&& table_after is None
                &&& if self.may_sweep {
                    &&& self.stage matches Stage::Sweep(scan) && self.class.fresh_sweep(
                        ranges,
                        Some(self.limit),
                        None,
                        scan,
                    )
                    &&& said == seq![
                        Note::SweepStarting { name: self.class.name, why: Why::NoTable },
                    ]
                } else {
                    self.stage is Over && said == Seq::<Note>::empty()
                }
            },
        }
    }

    /// Begins a search for one instance of `class` that `accept` takes, among
    /// the first `limit`.
    pub fn begin(
        class: Locatable,
        limit: usize,
        accept: Accept,
        may_sweep: bool,
        ranges: &[MemoryRange],
        table: &mut Option<ReferenceTable>,
        log: &mut Vec<Note>,
    ) -> (locate: Self)
        ensures
            locate.wf(),
            locate.class == class,
            locate.limit == limit,
            locate.accept == accept,
            locate.may_sweep == may_sweep,
            old(log)@.is_prefix_of(final(log)@),
            locate.begun(
                ranges@,
                *old(table),
                *final(table),
                final(log)@.skip(old(log)@.len() as int),
            ),
    {
        let mut why: Why = Why::NoTable;
        if let Some(t) = table {
            match t.instances(ranges, class.vtable, class.validator, limit, log) {
                Some(search) => {
                    assert(log@.skip(old(log)@.len() as int) =~= old(table)->0.extended(
                        ranges@,
                    ).1);
                    return Locate { class, accept, limit, may_sweep, stage: Stage::Table(search) };
                },
                None => {
                    why = Why::TableUnreadable;
                },
            }
        }
        assert(log@ =~= old(log)@);
        if may_sweep {
            let scan = class.sweep(ranges, Some(limit), why, None, log);
            assert(log@.skip(old(log)@.len() as int) =~= seq![
                Note::SweepStarting { name: class.name, why },
            ]);
            Locate { class, accept, limit, may_sweep, stage: Stage::Sweep(scan) }
        } else {
            assert(log@.skip(old(log)@.len() as int) =~= Seq::<Note>::empty());
            Locate { class, accept, limit, may_sweep, stage: Stage::Over }
        }
    }

    /// One slice of the search.
    pub fn step<M: Memory>(
        self,
        memory: &M,
        ranges: &[MemoryRange],
        table: &mut Option<ReferenceTable>,
        log: &mut Vec<Note>,
    ) -> (result: (Self, Located))
        requires
            self.wf(),
        ensures
            result.1 is Pending ==> result.0.wf(),
            old(log)@.is_prefix_of(final(log)@),
            self.stepped(
                memory,
                ranges@,
                *old(table),
                result.0,
                *final(table),
                result.1,
                final(log)@.skip(old(log)@.len() as int),
            ),
    {
        let Locate { class, accept, limit, may_sweep, stage } = self;
        match stage {
            Stage::Over => {
                assert(log@.skip(old(log)@.len() as int) =~= Seq::<Note>::empty());
                let over = Locate { class, accept, limit, may_sweep, stage: Stage::Over };
                (over, Located::Done(none_found()))
            },
            Stage::Sweep(scan) => sweep_on(class, accept, limit, memory, scan, table, log),
            Stage::Table(mut search) => {
                let ghost before = search;
                let progress = search.step(memory, DEFAULT_BUDGET);
                assert(before.stepped(memory, DEFAULT_BUDGET as int, search, progress));
                let mut why: Why = Why::TableUnreadable;
                match progress {
                    Progress::Pending => {
                        assert(log@.skip(old(log)@.len() as int) =~= Seq::<Note>::empty());
                        let next = Locate {
                            class,
                            accept,
                            limit,
                            may_sweep,
                            stage: Stage::Table(search),
                        };
                        return (next, Located::Pending);
                    },
                    Progress::Unreadable => {},
                    Progress::Finished => {
                        note_answer(class.name, &search.instances, log);
                        assert(log@.skip(old(log)@.len() as int) =~= answer_note(
                            class.name,
                            search.instances@,
                        ));
                        if let Some(instance) = accept.pick(memory, &search.instances) {
                            if may_sweep {
                                mark_answered(table);
                            }
                            let found = Found {
                                instances: vec![instance],
                                conclusive: false,
                                table_candidates: Vec::new(),
                            };
                            assert(found.instances@ =~= seq![instance]);
                            let over = Locate { class, accept, limit, may_sweep, stage: Stage::Over };
                            return (over, Located::Done(found));
                        }
                        why = if search.instances.len() == 0 {
                            Why::TableHasNone
                        } else {
                            Why::NoneAcceptable(search.instances.len())
                        };
                    },
                }
                let ghost answered = log@.skip(old(log)@.len() as int);
                let ghost mid = log@;
                assert(mid =~= old(log)@ + answered);
                assert(log@.skip(log@.len() as int) =~= Seq::<Note>::empty());
                if !may_sweep {
                    assert(answered.skip(answered.len() as int) =~= Seq::<Note>::empty());
                    let over = Locate { class, accept, limit, may_sweep, stage: Stage::Over };
                    return (over, Located::Done(none_found()));
                }
                let scan = class.sweep(ranges, Some(limit), why, None, log);
                let ghost started = log@;
                let result = sweep_on(class, accept, limit, memory, scan, table, log);
                proof {
                    let said = log@.skip(old(log)@.len() as int);
                    let k = old(log)@.len() as int;
                    assert(started == mid.push(Note::SweepStarting { name: class.name, why }));
                    assert(started.len() <= log@.len());
                    assert forall|i: int| 0 <= i < answered.len() implies said[i]
                        == answered[i] by {
                        assert(said[i] == log@[k + i]);
                        assert(log@[k + i] == started[k + i]);
                        assert(mid[k + i] == answered[i]);
                    }
                    assert(said.take(answered.len() as int) =~= answered);
                    assert(log@[mid.len() as int] == started[mid.len() as int]);
                    let rest = said.skip(answered.len() as int);
                    assert(rest[0] == (Note::SweepStarting { name: class.name, why }));
                    assert(rest.drop_first() =~= log@.skip(started.len() as int));
                    if progress is Unreadable {
                        assert(answered =~= Seq::<Note>::empty());
                        assert(rest =~= said);
                    }
                }
                result
            },
        }
    }
}

fn none_found() -> (found: Found)
    ensures
        nothing(found),
{
    Found { instances: Vec::new(), conclusive: false, table_candidates: Vec::new() }
}

/// One slice of a sweep.
fn sweep_on<M: Memory>(
    class: Locatable,
    accept: Accept,
    limit: usize,
    memory: &M,
    scan: Scan,
    table: &mut Option<ReferenceTable>,
    log: &mut Vec<Note>,
) -> (result: (Locate, Located))
    requires
        scan.wf(),
    ensures
        result.1 is Pending ==> result.0.wf(),
        old(log)@.is_prefix_of(final(log)@),
        (Locate { class, accept, limit, may_sweep: true, stage: Stage::Over }).swept(
            memory,
            scan,
            *old(table),
            result.0,
            *final(table),
            result.1,
            final(log)@.skip(old(log)@.len() as int),
        ),
{
    let mut scan = scan;
    let ghost before = scan;
    let done = scan.step(memory, DEFAULT_BUDGET);
    assert(before.stepped(memory, DEFAULT_BUDGET as int, scan, done));
    if !done {
        assert(log@.skip(old(log)@.len() as int) =~= Seq::<Note>::empty());
        let next = Locate { class, accept, limit, may_sweep: true, stage: Stage::Sweep(scan) };
        return (next, Located::Pending);
    }
    let ghost note = class.sweep_note(scan);
    let swept = class.swept(scan, log);
    assert(log@.skip(old(log)@.len() as int) =~= seq![note]);
    let picked = accept.pick(memory, &swept.instances);
    // The table said no and the heap said yes. That pairing is the only thing
    // that tells a table which has gone wrong from a question that simply has
    // no answer.
    let mut instances: Vec<u64> = Vec::new();
    if let Some(instance) = picked {
        mark_missing(table);
        instances.push(instance);
    }
    assert(instances@ =~= singled(picked));
    let found = Found {
        instances,
        conclusive: swept.conclusive,
        table_candidates: swept.table_candidates,
    };
    let over = Locate { class, accept, limit, may_sweep: true, stage: Stage::Over };
    (over, Located::Done(found))
}

} // verus!
