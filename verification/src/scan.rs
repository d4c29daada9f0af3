//! Locating managed objects by scanning for instances of their class.
//!
//! Timberborn has no static roots into its DI container, so a service cannot be
//! reached by walking static fields. Services are singletons though, so there
//! is exactly one instance of each service class in the process, and it can be
//! found directly: every managed object begins with a pointer to its class's
//! vtable, so an object is an instance of exactly that class iff its first word
//! equals that class's vtable address.
//!
//! A raw scan over-matches. Matches therefore have to be validated -- see
//! [`Validator`] -- and because validation is reliable, a scan for a singleton
//! can stop at the first match that survives it.
pub mod absence;
pub mod order;

use vstd::prelude::*;

use crate::memory::flags::{all_set, contains, EXECUTE, READ, WRITE};
use crate::memory::{
    field_pointer, offset_by, plus, pointer_at, read_pointer, read_pointer_raw, word_in, word_of,
    Memory, MemoryRange,
};

verus! {

/// Words read at a time: 64 KiB of them.
pub const CHUNK_WORDS: usize = 8192;

/// Words in a page, which is what a chunk that cannot be read whole is retried
/// by.
pub const PAGE_WORDS: usize = 512;

/// Bytes to scan per slice, which sits about at the host's update interval.
pub const DEFAULT_BUDGET: u64 = 0x200_0000;

/// Tells a real instance from a word that merely happens to equal the vtable
/// address.
///
/// Reads a reference-typed field off the candidate and confirms the object it
/// points at is an instance of the class that field is declared to hold. Mono's
/// own bookkeeping does not survive this.
#[derive(Clone, Copy)]
pub struct Validator {
    /// Offset of a reference-typed field on the candidate.
    pub field_offset: u32,
    /// Vtable the object that field points at must have.
    pub expected_vtable: u64,
}

impl Validator {
    /// Whether the field of `candidate` leads to an object of the class it is
    /// declared to hold.
    pub open spec fn admits<M: Memory>(self, memory: &M, candidate: u64) -> bool {
        match field_pointer(memory, candidate, self.field_offset) {
            Some(field) => pointer_at(memory, field) == Some(self.expected_vtable),
            None => false,
        }
    }

    pub fn accepts<M: Memory>(&self, memory: &M, candidate: u64) -> (accepted: bool)
        ensures
            accepted == self.admits(memory, candidate),
    {
        match read_pointer(memory, candidate, self.field_offset) {
            Some(field) => match vtable_of(memory, field) {
                Some(vtable) => vtable == self.expected_vtable,
                None => false,
            },
            None => false,
        }
    }
}

/// Reads the vtable pointer of a managed object, i.e. its class identity.
pub fn vtable_of<M: Memory>(memory: &M, object: u64) -> (vtable: Option<u64>)
    ensures
        vtable == pointer_at(memory, object),
{
    read_pointer_raw(memory, object)
}

/// What a scan looked at. The counters stick at their highest value.
#[derive(Clone, Copy)]
pub struct Stats {
    /// Ranges that passed the readable-writable filter.
    pub ranges_scanned: u32,
    /// Ranges rejected by the filter.
    pub ranges_skipped: u32,
    /// Total bytes in the ranges to be scanned, before any early stop.
    pub bytes_total: u64,
    /// Bytes actually read and compared.
    pub bytes_scanned: u64,
    /// Chunks whose bulk read failed and had to be retried page by page.
    pub read_failures: u32,
    /// Bytes that could not be read even page by page, and so were never
    /// compared. Any hit inside them is missed, so a scan that finds nothing
    /// is only trustworthy when this is 0.
    pub bytes_unreadable: u64,
    /// Slices the scan was spread across.
    pub slices: u32,
}

/// `a + b`, or the highest count where that does not fit.
pub open spec fn counted32(a: u32, b: int) -> u32 {
    if a + b > u32::MAX {
        u32::MAX
    } else {
        (a + b) as u32
    }
}

/// `a + b`, or the highest count where that does not fit.
pub open spec fn counted64(a: u64, b: int) -> u64 {
    if a + b > u64::MAX {
        u64::MAX
    } else {
        (a + b) as u64
    }
}

impl Stats {
    pub open spec fn zero() -> Self {
        Stats {
            ranges_scanned: 0,
            ranges_skipped: 0,
            bytes_total: 0,
            bytes_scanned: 0,
            read_failures: 0,
            bytes_unreadable: 0,
            slices: 0,
        }
    }

    /// With one more range set aside.
    pub open spec fn skipped(self) -> Self {
        Stats { ranges_skipped: counted32(self.ranges_skipped, 1), ..self }
    }

    /// With one more range of `size` bytes to scan.
    pub open spec fn taken(self, size: u64) -> Self {
        Stats {
            ranges_scanned: counted32(self.ranges_scanned, 1),
            bytes_total: counted64(self.bytes_total, size as int),
            ..self
        }
    }

    /// With `bytes` more read.
    pub open spec fn read(self, bytes: int) -> Self {
        Stats { bytes_scanned: counted64(self.bytes_scanned, bytes), ..self }
    }

    /// With one more chunk that could not be read whole.
    pub open spec fn failed(self) -> Self {
        Stats { read_failures: counted32(self.read_failures, 1), ..self }
    }

    /// With `bytes` more that could not be read at all.
    pub open spec fn lost(self, bytes: int) -> Self {
        Stats { bytes_unreadable: counted64(self.bytes_unreadable, bytes), ..self }
    }

    /// With one more slice begun.
    pub open spec fn sliced(self) -> Self {
        Stats { slices: counted32(self.slices, 1), ..self }
    }
}

impl Default for Stats {
    fn default() -> (stats: Self)
        ensures
            stats == Stats::zero(),
    {
        Stats {
            ranges_scanned: 0,
            ranges_skipped: 0,
            bytes_total: 0,
            bytes_scanned: 0,
            read_failures: 0,
            bytes_unreadable: 0,
            slices: 0,
        }
    }
}

/// A resumable scan over the target's writable memory.
///
/// A whole-heap scan takes long enough that doing it in one go stalls the
/// splitter's update loop, which matters because the scan re-runs on scene
/// change -- exactly when a run starts. [`step`](Self::step) does a bounded
/// amount of work and returns, so the caller can yield between slices.
pub struct Scan {
    pub needle: u64,
    /// A second value to notice in passing. It is how the reference table gets
    /// found without a pass of its own: give a sweep the address of something
    /// already located, and the ranges holding pointers to it come back for
    /// nothing.
    pub anchor: Option<u64>,
    pub validator: Option<Validator>,
    pub limit: Option<usize>,
    pub ranges: Vec<(u64, u64)>,
    pub range_index: usize,
    pub offset: u64,
    /// Matches that passed validation, or all matches if there is no validator.
    pub found: Vec<u64>,
    /// The range each entry in `found` came from. Same length as `found`.
    pub found_ranges: Vec<(u64, u64)>,
    /// Ranges a pointer to `anchor` was seen in, deduplicated.
    pub anchor_ranges: Vec<(u64, u64)>,
    /// Matches that failed validation. Kept for diagnostics.
    pub rejected: Vec<u64>,
    pub stats: Stats,
}

/// What a scan is looking for.
pub struct Quarry {
    pub needle: u64,
    pub anchor: Option<u64>,
    pub validator: Option<Validator>,
    pub limit: Option<usize>,
}

/// What a scan has gathered so far, and whether its limit stopped it.
pub struct Tally {
    pub found: Seq<u64>,
    pub found_ranges: Seq<(u64, u64)>,
    pub anchor_ranges: Seq<(u64, u64)>,
    pub rejected: Seq<u64>,
    pub stats: Stats,
    pub stopped: bool,
}

/// Whether a range can hold managed objects: readable and writable, and not
/// code.
pub open spec fn holds_objects(range: MemoryRange) -> bool {
    all_set(range.flags, READ | WRITE) && !all_set(range.flags, EXECUTE)
}

/// The ranges worth scanning, in the order they were reported.
pub open spec fn scannable(ranges: Seq<MemoryRange>) -> Seq<(u64, u64)>
    decreases ranges.len(),
{
    if ranges.len() == 0 {
        Seq::empty()
    } else {
        let rest = scannable(ranges.drop_last());
        if holds_objects(ranges.last()) {
            rest.push((ranges.last().address, ranges.last().size))
        } else {
            rest
        }
    }
}

/// What choosing among `ranges` counts to.
pub open spec fn surveyed(ranges: Seq<MemoryRange>) -> Stats
    decreases ranges.len(),
{
    if ranges.len() == 0 {
        Stats::zero()
    } else {
        let rest = surveyed(ranges.drop_last());
        if holds_objects(ranges.last()) {
            rest.taken(ranges.last().size)
        } else {
            rest.skipped()
        }
    }
}

/// The words that `n` words' worth of bytes at `start` hold, where they can be
/// read as one.
pub open spec fn words_at<M: Memory>(memory: &M, start: u64, n: int) -> Option<Seq<u64>> {
    match memory.contents(start, (8 * n) as nat) {
        Some(bytes) => Some(Seq::new(n as nat, |i: int| word_of(bytes, i))),
        None => None,
    }
}

/// The addresses, from word `i` on, of the words equal to `needle`.
pub open spec fn places(words: Seq<u64>, start: u64, needle: u64, i: int) -> Seq<u64>
    decreases words.len() - i,
{
    if i >= words.len() {
        Seq::empty()
    } else if words[i] == needle {
        seq![plus(start, (8 * i) as u64)] + places(words, start, needle, i + 1)
    } else {
        places(words, start, needle, i + 1)
    }
}

/// Sorts candidates into found and rejected, stopping at the limit.
pub open spec fn sifted<M: Memory>(
    memory: &M,
    quarry: Quarry,
    range: (u64, u64),
    candidates: Seq<u64>,
    tally: Tally,
) -> Tally
    decreases candidates.len(),
{
    if tally.stopped || candidates.len() == 0 {
        tally
    } else {
        let candidate = candidates[0];
        let next = if quarry.validator matches Some(v) && !v.admits(memory, candidate) {
            Tally { rejected: tally.rejected.push(candidate), ..tally }
        } else {
            Tally {
                found: tally.found.push(candidate),
                found_ranges: tally.found_ranges.push(range),
                stopped: quarry.limit matches Some(n) && tally.found.len() + 1 >= n,
                ..tally
            }
        };
        sifted(memory, quarry, range, candidates.drop_first(), next)
    }
}

/// `ranges` with `range` among them.
pub open spec fn noted(ranges: Seq<(u64, u64)>, range: (u64, u64)) -> Seq<(u64, u64)> {
    if ranges.contains(range) {
        ranges
    } else {
        ranges.push(range)
    }
}

/// What comparing words that were read adds to the tally.
pub open spec fn compared<M: Memory>(
    memory: &M,
    quarry: Quarry,
    range: (u64, u64),
    start: u64,
    words: Seq<u64>,
    tally: Tally,
) -> Tally {
    let anchored = if quarry.anchor matches Some(anchor) && words.contains(anchor) {
        Tally { anchor_ranges: noted(tally.anchor_ranges, range), ..tally }
    } else {
        tally
    };
    sifted(memory, quarry, range, places(words, start, quarry.needle, 0), anchored)
}

/// What reading `n` words at `start` a page at a time adds to the tally, from
/// word `done` on.
pub open spec fn paged<M: Memory>(
    memory: &M,
    quarry: Quarry,
    range: (u64, u64),
    start: u64,
    n: int,
    done: int,
    tally: Tally,
) -> Tally
    decreases n - done,
{
    if tally.stopped || done >= n {
        tally
    } else {
        let size = if n - done < PAGE_WORDS {
            n - done
        } else {
            PAGE_WORDS as int
        };
        let at = plus(start, (8 * done) as u64);
        let next = match words_at(memory, at, size) {
            Some(words) => compared(
                memory,
                quarry,
                range,
                at,
                words,
                Tally { stats: tally.stats.read(8 * size), ..tally },
            ),
            None => Tally { stats: tally.stats.lost(8 * size), ..tally },
        };
        paged(memory, quarry, range, start, n, done + size, next)
    }
}

/// What a chunk of `n` words at `start` adds to the tally: the whole of it, or
/// the pages of it that can be read.
pub open spec fn chunked<M: Memory>(
    memory: &M,
    quarry: Quarry,
    range: (u64, u64),
    start: u64,
    n: int,
    tally: Tally,
) -> Tally {
    match words_at(memory, start, n) {
        Some(words) => compared(
            memory,
            quarry,
            range,
            start,
            words,
            Tally { stats: tally.stats.read(8 * n), ..tally },
        ),
        None => paged(
            memory,
            quarry,
            range,
            start,
            n,
            0,
            Tally { stats: tally.stats.failed(), ..tally },
        ),
    }
}

/// Words in the chunk that starts `offset` bytes into a range of `size`.
pub open spec fn chunk_words(size: u64, offset: u64) -> int {
    if offset >= size {
        0
    } else if (size - offset) / 8 < CHUNK_WORDS {
        (size - offset) / 8
    } else {
        CHUNK_WORDS as int
    }
}

/// Where a slice of `left` bytes leads, from a place in the ranges: the place it
/// ends at, what it gathered, and whether that finished the scan. One that is to
/// accept nothing is finished at once.
pub open spec fn sliced<M: Memory>(
    memory: &M,
    quarry: Quarry,
    ranges: Seq<(u64, u64)>,
    range_index: int,
    offset: u64,
    tally: Tally,
    left: int,
) -> (int, u64, Tally, bool)
    decreases ranges.len() - range_index, ranges[range_index].1 - offset,
{
    if quarry.limit == Some(0usize) {
        (range_index, offset, tally, true)
    } else if left <= 0 {
        (range_index, offset, tally, false)
    } else if range_index >= ranges.len() {
        (range_index, offset, tally, true)
    } else {
        let range = ranges[range_index];
        let n = chunk_words(range.1, offset);
        if n == 0 {
            // A tail shorter than a pointer cannot hold one.
            sliced(memory, quarry, ranges, range_index + 1, 0, tally, left)
        } else {
            let next = chunked(memory, quarry, range, plus(range.0, offset), n, tally);
            let after = (offset + 8 * n) as u64;
            if next.stopped {
                (range_index, after, next, true)
            } else {
                sliced(memory, quarry, ranges, range_index, after, next, left - 8 * n)
            }
        }
    }
}

impl Scan {
    pub open spec fn quarry(self) -> Quarry {
        Quarry {
            needle: self.needle,
            anchor: self.anchor,
            validator: self.validator,
            limit: self.limit,
        }
    }

    pub open spec fn tally(self) -> Tally {
        Tally {
            found: self.found@,
            found_ranges: self.found_ranges@,
            anchor_ranges: self.anchor_ranges@,
            rejected: self.rejected@,
            stats: self.stats,
            stopped: false,
        }
    }

    /// The scan is at a place its ranges have.
    pub open spec fn wf(self) -> bool {
        &&& self.range_index <= self.ranges@.len()
        &&& self.range_index < self.ranges@.len() ==> self.offset
            <= self.ranges@[self.range_index as int].1
    }

    /// A scan for `needle` alone that has not read anything yet.
    pub open spec fn fresh(self, ranges: Seq<MemoryRange>, needle: u64) -> bool {
        &&& self.wf()
        &&& self.quarry() == (Quarry { needle, anchor: None, validator: None, limit: None })
        &&& self.ranges@ == scannable(ranges)
        &&& self.range_index == 0
        &&& self.offset == 0
        &&& self.tally() == (Tally {
            found: Seq::empty(),
            found_ranges: Seq::empty(),
            anchor_ranges: Seq::empty(),
            rejected: Seq::empty(),
            stats: surveyed(ranges),
            stopped: false,
        })
    }

    /// Everything but the place and what was gathered stays as it is.
    pub open spec fn continues(self, before: Scan) -> bool {
        &&& self.quarry() == before.quarry()
        &&& self.ranges == before.ranges
    }

    /// What a slice of `budget` bytes leads to.
    pub open spec fn stepped<M: Memory>(
        self,
        memory: &M,
        budget: int,
        after: Scan,
        finished: bool,
    ) -> bool {
        let begun = Tally { stats: self.stats.sliced(), ..self.tally() };
        let (range_index, offset, tally, done) = sliced(
            memory,
            self.quarry(),
            self.ranges@,
            self.range_index as int,
            self.offset,
            begun,
            budget,
        );
        &&& after.continues(self)
        &&& after.range_index == range_index
        &&& after.offset == offset
        &&& after.tally() == (Tally { stopped: false, ..tally })
        &&& finished == done
    }

    /// Chooses among the target's memory ranges. Cheap; the reads happen in
    /// [`step`](Self::step).
    pub fn new(ranges: &[MemoryRange], vtable: u64) -> (scan: Self)
        ensures
            scan.fresh(ranges@, vtable),
    {
        let mut chosen: Vec<(u64, u64)> = Vec::new();
        let mut stats: Stats = Stats::default();
        let mut i: usize = 0;
        while i < ranges.len()
            invariant
                i <= ranges@.len(),
                chosen@ == scannable(ranges@.take(i as int)),
                stats == surveyed(ranges@.take(i as int)),
            decreases ranges@.len() - i,
        {
            assert(ranges@.take(i + 1).drop_last() =~= ranges@.take(i as int));
            let range: MemoryRange = ranges[i];
            // The managed heap is readable and writable. Skipping executable
            // pages drops the code sections, which cannot hold objects.
            if contains(range.flags, READ | WRITE) && !contains(range.flags, EXECUTE) {
                stats.ranges_scanned = stats.ranges_scanned.saturating_add(1);
                stats.bytes_total = stats.bytes_total.saturating_add(range.size);
                chosen.push((range.address, range.size));
            } else {
                stats.ranges_skipped = stats.ranges_skipped.saturating_add(1);
            }
            i = i + 1;
        }
        assert(ranges@.take(i as int) =~= ranges@);
        Scan {
            needle: vtable,
            anchor: None,
            validator: None,
            limit: None,
            ranges: chosen,
            range_index: 0,
            offset: 0,
            found: Vec::new(),
            found_ranges: Vec::new(),
            anchor_ranges: Vec::new(),
            rejected: Vec::new(),
            stats,
        }
    }

    /// Whether an empty result actually means "not present".
    ///
    /// A scan proves absence only if it read everything it set out to read.
    /// Memory can be transiently unreadable, and a dying process reports no
    /// ranges at all, which would otherwise look like a clean negative.
    pub fn is_conclusive(&self) -> (conclusive: bool)
        ensures
            conclusive == (self.stats.bytes_total > 0 && self.stats.bytes_unreadable == 0),
    {
        self.stats.bytes_total > 0 && self.stats.bytes_unreadable == 0
    }

    /// Also note which ranges hold a pointer to `anchor`, in the same pass.
    pub fn also_finding(self, anchor: u64) -> (scan: Self)
        ensures
            scan == (Scan { anchor: Some(anchor), ..self }),
    {
        let mut scan = self;
        scan.anchor = Some(anchor);
        scan
    }

    /// Check each match, sorting them into `found` and `rejected`.
    pub fn validating(self, validator: Validator) -> (scan: Self)
        ensures
            scan == (Scan { validator: Some(validator), ..self }),
    {
        let mut scan = self;
        scan.validator = Some(validator);
        scan
    }

    /// Stop once `limit` matches have been accepted.
    ///
    /// A limit of 1 suits a singleton. Classes that are legitimately
    /// multi-instance need a higher limit or none at all, and an unlimited scan
    /// always reads the whole address space.
    pub fn limit(self, limit: usize) -> (scan: Self)
        ensures
            scan == (Scan { limit: Some(limit), ..self }),
    {
        let mut scan = self;
        scan.limit = Some(limit);
        scan
    }

    /// Scans up to `budget` bytes. Returns `true` when the scan is finished,
    /// either because the address space is covered or because it stopped early.
    #[verifier::loop_isolation(false)]
    pub fn step<M: Memory>(&mut self, memory: &M, budget: u64) -> (finished: bool)
        requires
            old(self).wf(),
        ensures
            final(self).wf(),
            old(self).stepped(memory, budget as int, *final(self), finished),
    {
        self.stats.slices = self.stats.slices.saturating_add(1);
        let mut used: u64 = 0;
        let ghost quarry = self.quarry();
        let ghost whole = sliced(
            memory,
            quarry,
            self.ranges@,
            self.range_index as int,
            self.offset,
            self.tally(),
            budget as int,
        );
        assert(self.tally() == (Tally {
            stats: old(self).stats.sliced(),
            ..old(self).tally()
        }));
        if matches!(self.limit, Some(0)) {
            return true;
        }
        while used < budget
            invariant
                self.wf(),
                self.continues(*old(self)),
                quarry == old(self).quarry(),
                quarry.limit != Some(0usize),
                whole == sliced(
                    memory,
                    quarry,
                    self.ranges@,
                    self.range_index as int,
                    self.offset,
                    self.tally(),
                    budget - used,
                ),
            decreases
                budget - used,
                self.ranges@.len() - self.range_index,
        {
            if self.range_index >= self.ranges.len() {
                return true;
            }
            let (base, size): (u64, u64) = self.ranges[self.range_index];
            let mut words: u64 = (size - self.offset) / 8;
            if words > CHUNK_WORDS as u64 {
                words = CHUNK_WORDS as u64;
            }
            if words == 0 {
                // A tail shorter than a pointer cannot hold one.
                self.range_index = self.range_index + 1;
                self.offset = 0;
                continue ;
            }
            let bytes: u64 = words * 8;
            let start: u64 = offset_by(base, self.offset);
            let stop = self.visit(memory, start, words as usize);
            self.offset = self.offset + bytes;
            if stop {
                return true;
            }
            if budget - used <= bytes {
                assert(sliced(
                    memory,
                    quarry,
                    self.ranges@,
                    self.range_index as int,
                    self.offset,
                    self.tally(),
                    budget - used - bytes,
                ) == (self.range_index as int, self.offset, self.tally(), false));
                return false;
            }
            used = used + bytes;
        }
        false
    }

    /// Reads a chunk and compares it, page by page where it cannot be read
    /// whole. Returns `true` if the scan should stop.
    fn visit<M: Memory>(&mut self, memory: &M, start: u64, words: usize) -> (stop: bool)
        requires
            old(self).wf(),
            old(self).range_index < old(self).ranges@.len(),
            0 < words <= CHUNK_WORDS,
        ensures
            final(self).wf(),
            final(self).continues(*old(self)),
            final(self).range_index == old(self).range_index,
            final(self).offset == old(self).offset,
            ({
                let tally = chunked(
                    memory,
                    old(self).quarry(),
                    old(self).ranges@[old(self).range_index as int],
                    start,
                    words as int,
                    old(self).tally(),
                );
                &&& final(self).tally() == (Tally { stopped: false, ..tally })
                &&& stop == tally.stopped
            }),
    {
        let bytes: usize = words * 8;
        let mut buf: Vec<u8> = vec![0u8; bytes];
        if memory.read(start, buf.as_mut_slice()) {
            self.stats.bytes_scanned = self.stats.bytes_scanned.saturating_add(bytes as u64);
            self.examine(memory, start, &buf)
        } else {
            // A chunk spanning a single unmapped page fails as a whole.
            // Dropping it would silently skip 64 KiB and can hide the very
            // object we are looking for, so fall back to page-sized reads
            // and only give up on the pages that really are unreadable.
            self.stats.read_failures = self.stats.read_failures.saturating_add(1);
            self.examine_by_page(memory, start, words)
        }
    }

    /// Compares the words of `buf`, read at `start`, against the needle,
    /// recording matches. Returns `true` if the scan should stop.
    #[verifier::loop_isolation(false)]
    fn examine<M: Memory>(&mut self, memory: &M, start: u64, buf: &Vec<u8>) -> (stop: bool)
        requires
            old(self).wf(),
            old(self).range_index < old(self).ranges@.len(),
            buf@.len() % 8 == 0,
            buf@.len() <= 8 * CHUNK_WORDS,
        ensures
            final(self).wf(),
            final(self).continues(*old(self)),
            final(self).range_index == old(self).range_index,
            final(self).offset == old(self).offset,
            ({
                let tally = compared(
                    memory,
                    old(self).quarry(),
                    old(self).ranges@[old(self).range_index as int],
                    start,
                    Seq::new((buf@.len() / 8) as nat, |i: int| word_of(buf@, i)),
                    old(self).tally(),
                );
                &&& final(self).tally() == (Tally { stopped: false, ..tally })
                &&& stop == tally.stopped
            }),
    {
        let words: usize = buf.len() / 8;
        let ghost held = Seq::new((buf@.len() / 8) as nat, |i: int| word_of(buf@, i));
        let range: (u64, u64) = self.ranges[self.range_index];
        let ghost quarry = self.quarry();

        if let Some(anchor) = self.anchor {
            let mut i: usize = 0;
            let mut seen = false;
            while i < words && !seen
                invariant
                    i <= words,
                    words == held.len(),
                    8 * words == buf@.len(),
                    held == Seq::new((buf@.len() / 8) as nat, |i: int| word_of(buf@, i)),
                    !seen ==> forall|j: int| 0 <= j < i ==> held[j] != anchor,
                    seen ==> held.contains(anchor),
                decreases words - i + (if seen { 0int } else { 1 }),
            {
                if word_in(buf.as_slice(), i) == anchor {
                    assert(held[i as int] == anchor);
                    seen = true;
                } else {
                    i = i + 1;
                }
            }
            if seen {
                note(&mut self.anchor_ranges, range);
            }
        }
        let ghost whole = sifted(
            memory,
            quarry,
            range,
            places(held, start, quarry.needle, 0),
            self.tally(),
        );
        let mut i: usize = 0;
        while i < words
            invariant
                i <= words,
                words == held.len(),
                8 * words == buf@.len(),
                words <= CHUNK_WORDS,
                held == Seq::new((buf@.len() / 8) as nat, |i: int| word_of(buf@, i)),
                self.wf(),
                self.continues(*old(self)),
                self.range_index == old(self).range_index,
                self.offset == old(self).offset,
                quarry == self.quarry(),
                whole == sifted(
                    memory,
                    quarry,
                    range,
                    places(held, start, quarry.needle, i as int),
                    self.tally(),
                ),
            decreases words - i,
        {
            let ghost rest = places(held, start, quarry.needle, i as int);
            if word_in(buf.as_slice(), i) == self.needle {
                let candidate: u64 = offset_by(start, i as u64 * 8);
                assert(rest[0] == candidate);
                assert(rest.drop_first() =~= places(held, start, quarry.needle, i + 1));
                let admitted = match self.validator {
                    Some(v) => v.accepts(memory, candidate),
                    None => true,
                };
                if !admitted {
                    self.rejected.push(candidate);
                } else {
                    self.found.push(candidate);
                    self.found_ranges.push(range);
                    if let Some(n) = self.limit {
                        if self.found.len() >= n {
                            assert(sifted(
                                memory,
                                quarry,
                                range,
                                rest.drop_first(),
                                Tally { stopped: true, ..self.tally() },
                            ) == (Tally { stopped: true, ..self.tally() }));
                            return true;
                        }
                    }
                }
            }
            i = i + 1;
        }
        false
    }

    /// Retries a failed chunk one page at a time, so a single unmapped page
    /// costs us that page rather than the whole 64 KiB window.
    #[verifier::loop_isolation(false)]
    fn examine_by_page<M: Memory>(&mut self, memory: &M, start: u64, words: usize) -> (stop: bool)
        requires
            old(self).wf(),
            old(self).range_index < old(self).ranges@.len(),
            0 < words <= CHUNK_WORDS,
        ensures
            final(self).wf(),
            final(self).continues(*old(self)),
            final(self).range_index == old(self).range_index,
            final(self).offset == old(self).offset,
            ({
                let tally = paged(
                    memory,
                    old(self).quarry(),
                    old(self).ranges@[old(self).range_index as int],
                    start,
                    words as int,
                    0,
                    old(self).tally(),
                );
                &&& final(self).tally() == (Tally { stopped: false, ..tally })
                &&& stop == tally.stopped
            }),
    {
        let ghost quarry = self.quarry();
        let ghost range = self.ranges@[self.range_index as int];
        let ghost whole = paged(memory, quarry, range, start, words as int, 0, self.tally());
        let mut done: usize = 0;
        while done < words
            invariant
                done <= words <= CHUNK_WORDS,
                self.wf(),
                self.continues(*old(self)),
                self.range_index == old(self).range_index,
                self.range_index < self.ranges@.len(),
                range == self.ranges@[self.range_index as int],
                self.offset == old(self).offset,
                quarry == self.quarry(),
                whole == paged(
                    memory,
                    quarry,
                    range,
                    start,
                    words as int,
                    done as int,
                    self.tally(),
                ),
            decreases words - done,
        {
            let mut n: usize = words - done;
            if n > PAGE_WORDS {
                n = PAGE_WORDS;
            }
            let at: u64 = offset_by(start, done as u64 * 8);
            let mut buf: Vec<u8> = vec![0u8; n * 8];
            if memory.read(at, buf.as_mut_slice()) {
                self.stats.bytes_scanned = self.stats.bytes_scanned.saturating_add(n as u64 * 8);
                if self.examine(memory, at, &buf) {
                    assert(paged(
                        memory,
                        quarry,
                        range,
                        start,
                        words as int,
                        done + n,
                        Tally { stopped: true, ..self.tally() },
                    ) == (Tally { stopped: true, ..self.tally() }));
                    return true;
                }
            } else {
                self.stats.bytes_unreadable = self.stats.bytes_unreadable.saturating_add(
                    n as u64 * 8,
                );
            }
            done = done + n;
        }
        false
    }
}

/// Adds `range` to `ranges` unless it is there already.
pub fn note(ranges: &mut Vec<(u64, u64)>, range: (u64, u64))
    ensures
        final(ranges)@ == noted(old(ranges)@, range),
{
    let mut i: usize = 0;
    while i < ranges.len()
        invariant
            i <= ranges@.len(),
            ranges@ == old(ranges)@,
            forall|j: int| 0 <= j < i ==> ranges@[j] != range,
        decreases ranges@.len() - i,
    {
        if ranges[i].0 == range.0 && ranges[i].1 == range.1 {
            assert(ranges@[i as int] == range);
            return ;
        }
        i = i + 1;
    }
    ranges.push(range);
}

} // verus!
