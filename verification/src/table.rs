//! The runtime's table of references to live managed objects.
//!
//! Unity's native side holds managed objects through a table of references,
//! and that table is the shortcut past the heap scan. Everything the splitter
//! has to locate -- the scene loader, the game's DI container, the run start's
//! `GameInitializer` -- has an entry in it, so a scene change costs a read of
//! the table plus the pages its entries point at, rather than a sweep of every
//! writable byte in the process.
//!
//! # Nothing here is a fixed address
//!
//! The table is at a different address on every build and platform. So it is
//! *found* rather than tabulated: sweep once for anything pointing at an object
//! we have already located, and the table is among the ranges that come back.
//! See [`TableFind`].
//!
//! # What it is, and what it is not
//!
//! It is not a superset of the heap. A table search never reports a conclusive
//! absence, and the full sweep stays behind it.
use vstd::prelude::*;

use crate::memory::flags::{all_set, contains, WRITE};
use crate::memory::{
    offset_by, plus, pointer_at, read_u64, u64_at, word_in, word_of, Memory, MemoryRange,
};
use crate::note::Note;
use crate::order::{ascending, in_order, insert_in_order, no_later, same_values, sorted_unique};
use crate::scan::{chunk_words, counted32, note, noted, vtable_of, words_at, Validator, CHUNK_WORDS};

verus! {

/// How many of a candidate's words may point into the region where vtables
/// live -- i.e. look like object headers -- before it is a heap section rather
/// than a table.
///
/// Absolute rather than a fraction of the range, because the two populations do
/// not scale together: a table has 0 to 2 such words, and the sparsest heap
/// section competing with one has 2355.
pub const MAX_HEADER_WORDS: u32 = 64;

/// Read the table and the pages its entries point at in windows this size.
///
/// Bigger than a page because the cost through Wine is per read rather than per
/// byte.
pub const WINDOW: u64 = 0x1_0000;

pub const PAGE: u64 = 4096;

/// How many times the sweep behind the table may answer a question the table
/// could not before the table is given up on and looked for again.
///
/// One miss is ordinary. A run of them means the table is no longer the one the
/// runtime is using, and nothing else will ever notice: reading it still
/// succeeds, so it stays plausible for as long as its memory is mapped.
pub const MISSES_BEFORE_REFINDING: u32 = 3;

/// How much of a range this module is ever willing to read: for deciding
/// whether a candidate is a table, and for reading the table's entries. It is
/// deliberately not a rule about which ranges may be considered, because a
/// table's mapping can coalesce with its neighbours.
pub const MAX_RANGE_READ: u64 = 0x400_0000;

/// Where the runtime keeps its references to live managed objects.
///
/// Only the base is kept. The table grows in place, and caching the size it had
/// when it was found is a bug that hides itself, so the extent is taken afresh
/// on every search.
pub struct ReferenceTable {
    pub base: u64,
    /// The extent last reported, only so growth can be logged once rather than
    /// on every search.
    pub seen: u64,
    /// Consecutive searches the sweep behind it has had to answer. See
    /// [`MISSES_BEFORE_REFINDING`].
    pub misses: u32,
}

/// The first of `ranges` that `address` falls in.
pub open spec fn region_of(ranges: Seq<MemoryRange>, address: u64) -> Option<(u64, u64)>
    decreases ranges.len(),
{
    if ranges.len() == 0 {
        None
    } else if ranges[0].spans(address) {
        Some((ranges[0].address, ranges[0].size))
    } else {
        region_of(ranges.drop_first(), address)
    }
}

/// The mapped range an address falls in.
pub fn region_containing(ranges: &[MemoryRange], address: u64) -> (region: Option<(u64, u64)>)
    ensures
        region == region_of(ranges@, address),
{
    let mut i: usize = 0;
    assert(ranges@.skip(0) =~= ranges@);
    while i < ranges.len()
        invariant
            i <= ranges@.len(),
            region_of(ranges@, address) == region_of(ranges@.skip(i as int), address),
        decreases ranges@.len() - i,
    {
        assert(ranges@.skip(i as int).drop_first() =~= ranges@.skip(i + 1));
        let range: MemoryRange = ranges[i];
        if range.address <= address && address - range.address < range.size {
            return Some((range.address, range.size));
        }
        i = i + 1;
    }
    None
}

/// The base and size of every writable range, in the order they were reported.
pub open spec fn writable(ranges: Seq<MemoryRange>) -> Seq<(u64, u64)>
    decreases ranges.len(),
{
    if ranges.len() == 0 {
        Seq::empty()
    } else {
        let rest = writable(ranges.drop_last());
        if all_set(ranges.last().flags, WRITE) {
            rest.push((ranges.last().address, ranges.last().size))
        } else {
            rest
        }
    }
}

/// Every writable range, sorted, for deciding whether an entry points at
/// anything at all.
pub fn writable_ranges(ranges: &[MemoryRange]) -> (sorted: Vec<(u64, u64)>)
    ensures
        in_order(sorted@),
        sorted@.to_multiset() == writable(ranges@).to_multiset(),
{
    let mut sorted: Vec<(u64, u64)> = Vec::new();
    let mut i: usize = 0;
    while i < ranges.len()
        invariant
            i <= ranges@.len(),
            in_order(sorted@),
            sorted@.to_multiset() == writable(ranges@.take(i as int)).to_multiset(),
        decreases ranges@.len() - i,
    {
        assert(ranges@.take(i + 1).drop_last() =~= ranges@.take(i as int));
        let range: MemoryRange = ranges[i];
        let ghost rest = writable(ranges@.take(i as int));
        if contains(range.flags, WRITE) {
            insert_in_order(&mut sorted, (range.address, range.size));
            assert(writable(ranges@.take(i + 1)) == rest.push((range.address, range.size)));
            assert(rest.push((range.address, range.size)).to_multiset() =~= rest.to_multiset().insert(
                (range.address, range.size),
            )) by {
                broadcast use vstd::seq_lib::group_to_multiset_ensures;

            }
        }
        i = i + 1;
    }
    assert(ranges@.take(i as int) =~= ranges@);
    sorted
}

/// Whether `value` is where a range begins, or lies inside the last range that
/// begins below it.
pub open spec fn is_mapped(ranges: Seq<(u64, u64)>, value: u64) -> bool {
    ||| exists|i: int| 0 <= i < ranges.len() && (#[trigger] ranges[i]).0 == value
    ||| exists|i: int|
        {
            &&& 0 <= i < ranges.len()
            &&& (#[trigger] ranges[i]).0 < value
            &&& value - ranges[i].0 < ranges[i].1
            &&& i + 1 < ranges.len() ==> ranges[i + 1].0 >= value
        }
}

/// Whether `value` points into one of `ranges`, which are in order.
pub fn mapped(ranges: &[(u64, u64)], value: u64) -> (inside: bool)
    requires
        in_order(ranges@),
    ensures
        inside == is_mapped(ranges@, value),
{
    // The number of ranges that begin below `value`.
    let mut low: usize = 0;
    let mut high: usize = ranges.len();
    while low < high
        invariant
            low <= high <= ranges@.len(),
            in_order(ranges@),
            forall|j: int| 0 <= j < low ==> (#[trigger] ranges@[j]).0 < value,
            forall|j: int| high <= j < ranges@.len() ==> (#[trigger] ranges@[j]).0 >= value,
        decreases high - low,
    {
        let mid: usize = low + (high - low) / 2;
        if ranges[mid].0 < value {
            assert forall|j: int| 0 <= j < mid + 1 implies (#[trigger] ranges@[j]).0 < value by {
                if j < mid {
                    assert(no_later(ranges@[j], ranges@[mid as int]));
                }
            }
            low = mid + 1;
        } else {
            assert forall|j: int| mid <= j < ranges@.len() implies (#[trigger] ranges@[j]).0
                >= value by {
                if mid < j {
                    assert(no_later(ranges@[mid as int], ranges@[j]));
                }
            }
            high = mid;
        }
    }
    if low < ranges.len() && ranges[low].0 == value {
        return true;
    }
    assert forall|i: int| 0 <= i < ranges@.len() implies (#[trigger] ranges@[i]).0 != value by {
        if low < i {
            assert(no_later(ranges@[low as int], ranges@[i]));
        }
    }
    if low == 0 {
        return false;
    }
    assert(low < ranges@.len() ==> ranges@[low as int].0 >= value);
    let (base, size): (u64, u64) = ranges[low - 1];
    let inside = value - base < size;
    proof {
        if is_mapped(ranges@, value) {
            let i = choose|i: int|
                {
                    &&& 0 <= i < ranges@.len()
                    &&& (#[trigger] ranges@[i]).0 < value
                    &&& value - ranges@[i].0 < ranges@[i].1
                    &&& i + 1 < ranges@.len() ==> ranges@[i + 1].0 >= value
                };
            assert(i == low - 1);
        } else {
            assert(ranges@[low - 1].0 < value);
        }
    }
    inside
}

/// Reads a range a window at a time.
pub struct RangeWalk {
    pub base: u64,
    pub size: u64,
    /// How much of it has been gone over.
    pub offset: u64,
    /// Whether any window could be read.
    pub read_any: bool,
}

impl RangeWalk {
    pub open spec fn wf(self) -> bool {
        self.offset <= self.size
    }

    /// Words in the next window; none once the range is covered, and none in a
    /// tail too short to hold a pointer.
    pub open spec fn ahead(self) -> int {
        chunk_words(self.size, self.offset)
    }

    /// The next window's words, none where it cannot be read.
    pub open spec fn words<M: Memory>(self, memory: &M) -> Seq<u64> {
        match words_at(memory, plus(self.base, self.offset), self.ahead()) {
            Some(words) => words,
            None => Seq::empty(),
        }
    }

    /// Past the next window.
    pub open spec fn passed<M: Memory>(self, memory: &M) -> Self {
        RangeWalk {
            offset: (self.offset + 8 * self.ahead()) as u64,
            read_any: self.read_any || words_at(
                memory,
                plus(self.base, self.offset),
                self.ahead(),
            ) is Some,
            ..self
        }
    }

    pub fn new(base: u64, size: u64) -> (walk: Self)
        ensures
            walk == (RangeWalk { base, size, offset: 0, read_any: false }),
    {
        RangeWalk { base, size, offset: 0, read_any: false }
    }

    /// How many words the next window has.
    fn next_words(&self) -> (words: usize)
        requires
            self.wf(),
        ensures
            words == self.ahead(),
            words <= CHUNK_WORDS,
    {
        let words: u64 = (self.size - self.offset) / 8;
        if words > CHUNK_WORDS as u64 {
            CHUNK_WORDS
        } else {
            words as usize
        }
    }

    /// Reads the next window and moves past it.
    fn window<M: Memory>(&mut self, memory: &M) -> (words: Vec<u64>)
        requires
            old(self).wf(),
        ensures
            final(self).wf(),
            *final(self) == old(self).passed(memory),
            words@ == old(self).words(memory),
    {
        let n: usize = self.next_words();
        let mut buf: Vec<u8> = vec![0u8; 8 * n];
        let mut words: Vec<u64> = Vec::new();
        if memory.read(offset_by(self.base, self.offset), buf.as_mut_slice()) {
            self.read_any = true;
            let mut i: usize = 0;
            while i < n
                invariant
                    i <= n,
                    buf@.len() == 8 * n,
                    words@ == Seq::new(i as nat, |j: int| word_of(buf@, j)),
                decreases n - i,
            {
                words.push(word_in(buf.as_slice(), i));
                assert(words@ =~= Seq::new((i + 1) as nat, |j: int| word_of(buf@, j)));
                i = i + 1;
            }
            assert(words@ =~= Seq::new(n as nat, |j: int| word_of(buf@, j)));
        }
        self.offset = self.offset + 8 * n as u64;
        words
    }
}

/// How many of `words` point, aligned, into `metadata`: a base and a size.
pub open spec fn headers_in(words: Seq<u64>, metadata: (u64, u64)) -> int
    decreases words.len(),
{
    if words.len() == 0 {
        0
    } else {
        headers_in(words.drop_last(), metadata) + if is_header(words.last(), metadata) {
            1int
        } else {
            0
        }
    }
}

/// Whether `word` looks like an object header: aligned, and pointing into
/// `metadata`.
pub open spec fn is_header(word: u64, metadata: (u64, u64)) -> bool {
    word % 8 == 0 && metadata.0 <= word && word - metadata.0 < metadata.1
}

/// Where counting headers from `walk` on leads within `left` bytes: the walk,
/// the count, which goes no further than one past `limit`, and whether the
/// counting is over.
pub open spec fn headers_counted<M: Memory>(
    memory: &M,
    walk: RangeWalk,
    metadata: (u64, u64),
    limit: u32,
    headers: int,
    left: int,
) -> (RangeWalk, int, bool)
    decreases walk.size - walk.offset,
{
    if walk.ahead() == 0 {
        (walk, headers, true)
    } else {
        let total = headers + headers_in(walk.words(memory), metadata);
        let next = walk.passed(memory);
        if total > limit {
            (next, limit + 1, true)
        } else if left <= 8 * walk.ahead() {
            (next, total, false)
        } else {
            headers_counted(memory, next, metadata, limit, total, left - 8 * walk.ahead())
        }
    }
}

/// How many of a range's words point into `metadata`, i.e. look like object
/// headers, going on from what was counted before. Stops counting once it
/// passes `limit`, so a hundred-megabyte heap section is not read to the end to
/// be rejected, and pauses after `budget` bytes.
#[verifier::loop_isolation(false)]
pub fn header_words<M: Memory>(
    memory: &M,
    walk: &mut RangeWalk,
    metadata: (u64, u64),
    limit: u32,
    counted: u32,
    budget: u64,
) -> (result: (u32, bool))
    requires
        old(walk).wf(),
        counted <= limit < u32::MAX,
    ensures
        final(walk).wf(),
        (*final(walk), result.0 as int, result.1) == headers_counted(
            memory,
            *old(walk),
            metadata,
            limit,
            counted as int,
            budget as int,
        ),
        result.0 <= limit + 1,
        !result.1 ==> result.0 <= limit,
{
    let mut headers: u32 = counted;
    let mut left: u64 = budget;
    let ghost whole = headers_counted(
        memory,
        *walk,
        metadata,
        limit,
        counted as int,
        budget as int,
    );
    loop
        invariant
            walk.wf(),
            headers <= limit,
            whole == headers_counted(memory, *walk, metadata, limit, headers as int, left as int),
        decreases walk.size - walk.offset,
    {
        let bytes: u64 = 8 * walk.next_words() as u64;
        if bytes == 0 {
            return (headers, true);
        }
        let ghost at = *walk;
        let words = walk.window(memory);
        let ghost before = headers;
        let mut i: usize = 0;
        assert(words@.take(0) =~= Seq::<u64>::empty());
        while i < words.len()
            invariant
                i <= words@.len(),
                headers <= limit,
                headers == before + headers_in(words@.take(i as int), metadata),
            decreases words@.len() - i,
        {
            let word: u64 = words[i];
            assert(words@.take(i + 1).drop_last() =~= words@.take(i as int));
            if word % 8 == 0 && word >= metadata.0 && word - metadata.0 < metadata.1 {
                headers = headers + 1;
                if headers > limit {
                    proof {
                        lemma_headers_grow(words@, i + 1, metadata);
                    }
                    return (headers, true);
                }
            }
            i = i + 1;
        }
        assert(words@.take(i as int) =~= words@);
        if left <= bytes {
            return (headers, false);
        }
        left = left - bytes;
    }
}

proof fn lemma_headers_grow(words: Seq<u64>, n: int, metadata: (u64, u64))
    requires
        0 <= n <= words.len(),
    ensures
        headers_in(words.take(n), metadata) <= headers_in(words, metadata),
    decreases words.len() - n,
{
    if n < words.len() {
        assert(words.take(n + 1).drop_last() =~= words.take(n));
        lemma_headers_grow(words, n + 1, metadata);
    } else {
        assert(words.take(n) =~= words);
    }
}

/// Whether a word of the table is an entry: a reference, aligned, to something
/// writable.
pub open spec fn is_entry(ranges: Seq<(u64, u64)>, word: u64) -> bool {
    word != 0 && word % 8 == 0 && is_mapped(ranges, word)
}

/// The entries among `words`, in order.
pub open spec fn entries_in(ranges: Seq<(u64, u64)>, words: Seq<u64>) -> Seq<u64>
    decreases words.len(),
{
    if words.len() == 0 {
        Seq::empty()
    } else {
        let rest = entries_in(ranges, words.drop_last());
        if is_entry(ranges, words.last()) {
            rest.push(words.last())
        } else {
            rest
        }
    }
}

/// Where reading entries from `walk` on leads within `left` bytes: the walk, the
/// entries, and whether the table is covered.
pub open spec fn gathered<M: Memory>(
    memory: &M,
    ranges: Seq<(u64, u64)>,
    walk: RangeWalk,
    entries: Seq<u64>,
    left: int,
) -> (RangeWalk, Seq<u64>, bool)
    decreases walk.size - walk.offset,
{
    if walk.ahead() == 0 {
        (walk, entries, true)
    } else {
        let all = entries + entries_in(ranges, walk.words(memory));
        let next = walk.passed(memory);
        if left <= 8 * walk.ahead() {
            (next, all, false)
        } else {
            gathered(memory, ranges, next, all, left - 8 * walk.ahead())
        }
    }
}

/// The word at `object`, out of the window around it, or out of its page where
/// the window cannot be read whole.
pub open spec fn header_at<M: Memory>(memory: &M, object: u64) -> Option<u64> {
    let start = (object - object % WINDOW) as u64;
    let page = (object - object % PAGE) as u64;
    match memory.contents(start, WINDOW as nat) {
        Some(bytes) => Some(word_of(bytes, (object - start) / 8)),
        None => match memory.contents(page, PAGE as nat) {
            Some(bytes) => Some(word_of(bytes, (object - page) / 8)),
            None => None,
        },
    }
}

/// Whether an entry leads to an instance: one of the class with that vtable,
/// that passes validation.
pub open spec fn is_instance<M: Memory>(
    memory: &M,
    vtable: u64,
    validator: Validator,
    object: u64,
) -> bool {
    header_at(memory, object) == Some(vtable) && validator.admits(memory, object)
}

/// The instances among `objects`, in order.
pub open spec fn instances_in<M: Memory>(
    memory: &M,
    vtable: u64,
    validator: Validator,
    objects: Seq<u64>,
) -> Seq<u64>
    decreases objects.len(),
{
    if objects.len() == 0 {
        Seq::empty()
    } else {
        let rest = instances_in(memory, vtable, validator, objects.drop_last());
        if is_instance(memory, vtable, validator, objects.last()) {
            rest.push(objects.last())
        } else {
            rest
        }
    }
}

/// The end of the run of entries, from `at` on, that share the window `window`.
pub open spec fn run_end(entries: Seq<u64>, at: int, window: int) -> int
    decreases entries.len() - at,
{
    if at >= entries.len() || entries[at] as int / WINDOW as int != window {
        at
    } else {
        run_end(entries, at + 1, window)
    }
}

/// How far into the entries `left` bytes' worth of windows reach, and whether
/// that is past the last of them.
pub open spec fn reach(entries: Seq<u64>, at: int, left: int) -> (int, bool)
    decreases entries.len() - at,
{
    if at >= entries.len() {
        (at, true)
    } else {
        let stop = run_end(entries, at + 1, entries[at] as int / WINDOW as int);
        if left <= WINDOW || !(at < stop <= entries.len()) {
            (stop, false)
        } else {
            reach(entries, stop, left - WINDOW)
        }
    }
}

/// A window of memory, as much of it as could be read.
struct Window {
    bytes: Vec<u8>,
    /// Which of its pages could be read.
    readable: Vec<bool>,
}

/// `page` is the page at `at`, where it is `readable`.
spec fn page_shown<M: Memory>(memory: &M, at: u64, page: Seq<u8>, readable: bool) -> bool {
    &&& readable == (memory.contents(at, PAGE as nat) is Some)
    &&& readable ==> page == memory.contents(at, PAGE as nat)->0
}

proof fn lemma_page(start: u64, object: u64)
    requires
        start % WINDOW == 0,
        start + WINDOW <= 0x1_0000_0000_0000_0000,
        object % 8 == 0,
        start <= object,
        object - start < WINDOW,
    ensures
        0 <= (object - start) / 4096 < 16,
        object - object % PAGE == start + PAGE * ((object - start) / 4096),
        object - object % PAGE + PAGE <= start + WINDOW,
        object % PAGE + 8 <= PAGE,
        8 * ((object - start) / 8) == object - start,
        (object - start) / 8 < 8192,
{
    let off = object as int - start as int;
    let q = start as int / 0x1_0000;
    vstd::arithmetic::div_mod::lemma_fundamental_div_mod(start as int, 0x1_0000);
    vstd::arithmetic::div_mod::lemma_fundamental_div_mod(off, 4096);
    vstd::arithmetic::div_mod::lemma_fundamental_div_mod(off, 8);
    vstd::arithmetic::div_mod::lemma_fundamental_div_mod(object as int, 8);
    assert(start == 0x1_0000 * q);
    vstd::arithmetic::div_mod::lemma_fundamental_div_mod_converse(
        object as int,
        4096,
        16 * q + off / 4096,
        off % 4096,
    );
    vstd::arithmetic::div_mod::lemma_fundamental_div_mod_converse(
        off,
        8,
        object as int / 8 - 8192 * q,
        0,
    );
    assert(off % 4096 + 8 <= 4096) by {
        assert(off % 8 == 0);
        vstd::arithmetic::div_mod::lemma_fundamental_div_mod_converse(
            off % 4096,
            8,
            off / 8 - 512 * (off / 4096),
            0,
        );
    }
}

impl Window {
    /// The bytes of page `p`.
    spec fn page(self, p: int) -> Seq<u8> {
        self.bytes@.subrange(PAGE * p, PAGE * p + PAGE)
    }

    /// The window at `start` holds what `memory` does, as a whole or page by page.
    spec fn shows<M: Memory>(self, memory: &M, start: u64) -> bool {
        &&& self.bytes@.len() == WINDOW
        &&& self.readable@.len() == 16
        &&& match memory.contents(start, WINDOW as nat) {
            Some(bytes) => {
                &&& self.bytes@ == bytes
                &&& forall|p: int| 0 <= p < 16 ==> #[trigger] self.readable@[p]
            },
            None => forall|p: int|
                0 <= p < 16 ==> #[trigger] page_shown(
                    memory,
                    (start + PAGE * p) as u64,
                    self.page(p),
                    self.readable@[p],
                ),
        }
    }

    /// Whether `object`, which lies in the window, is an instance.
    fn leads_to<M: Memory>(
        &self,
        memory: &M,
        start: u64,
        object: u64,
        vtable: u64,
        validator: Validator,
    ) -> (hit: bool)
        requires
            self.shows(memory, start),
            start % WINDOW == 0,
            start + WINDOW <= 0x1_0000_0000_0000_0000,
            object % 8 == 0,
            start <= object,
            object - start < WINDOW,
        ensures
            hit == is_instance(memory, vtable, validator, object),
    {
        let offset: u64 = object - start;
        let page: usize = (offset / 4096) as usize;
        let i: usize = (offset / 8) as usize;
        proof {
            lemma_page(start, object);
        }
        let ghost at = (start + PAGE * page) as u64;
        let ghost bytes = self.page(page as int);
        let ghost whole = memory.contents(start, WINDOW as nat) is Some;
        assert(!whole ==> page_shown(memory, at, bytes, self.readable@[page as int]));
        if !self.readable[page] {
            return false;
        }
        assert(!whole ==> word_of(bytes, (object - at) / 8) == word_of(self.bytes@, i as int)) by {
            let k = (object - at) / 8;
            assert(bytes.subrange(8 * k, 8 * k + 8) =~= self.bytes@.subrange(8 * i, 8 * i + 8));
        }
        word_in(self.bytes.as_slice(), i) == vtable && validator.accepts(memory, object)
    }
}

/// Reads the page at `at` into place `p` of `bytes`. Returns whether it could be
/// read.
fn read_page<M: Memory>(memory: &M, at: u64, bytes: &mut Vec<u8>, p: usize) -> (ok: bool)
    requires
        p < 16,
        old(bytes)@.len() == WINDOW,
    ensures
        final(bytes)@.len() == WINDOW,
        forall|j: int|
            0 <= j < WINDOW && !(PAGE * p <= j < PAGE * p + PAGE) ==> final(bytes)@[j] == old(
                bytes,
            )@[j],
        page_shown(memory, at, final(bytes)@.subrange(PAGE * p, PAGE * p + PAGE), ok),
{
    let mut page: Vec<u8> = vec![0u8; PAGE as usize];
    if !memory.read(at, page.as_mut_slice()) {
        return false;
    }
    let first: usize = p * PAGE as usize;
    let mut k: usize = 0;
    while k < PAGE as usize
        invariant
            k <= PAGE,
            first == p * PAGE,
            p < 16,
            page@.len() == PAGE,
            bytes@.len() == WINDOW,
            forall|j: int|
                0 <= j < WINDOW && !(first <= j < first + PAGE) ==> bytes@[j] == old(bytes)@[j],
            forall|j: int| 0 <= j < k ==> bytes@[first + j] == page@[j],
        decreases PAGE - k,
    {
        bytes[first + k] = page[k];
        k = k + 1;
    }
    assert(bytes@.subrange(PAGE * p, PAGE * p + PAGE) =~= page@);
    true
}

/// Reads a window, falling back to pages so one unmapped page costs a page
/// rather than the whole window.
fn read_window<M: Memory>(memory: &M, start: u64) -> (window: Window)
    requires
        start % WINDOW == 0,
        start + WINDOW <= 0x1_0000_0000_0000_0000,
    ensures
        window.shows(memory, start),
{
    let mut bytes: Vec<u8> = vec![0u8; WINDOW as usize];
    let mut readable: Vec<bool> = Vec::new();
    let whole = memory.read(start, bytes.as_mut_slice());
    let ghost read = bytes@;
    let mut p: usize = 0;
    while p < 16
        invariant
            p <= 16,
            start % WINDOW == 0,
            start + WINDOW <= 0x1_0000_0000_0000_0000,
            bytes@.len() == WINDOW,
            readable@.len() == p,
            whole ==> bytes@ == read && forall|k: int| 0 <= k < p ==> #[trigger] readable@[k],
            !whole ==> forall|k: int|
                0 <= k < p ==> #[trigger] page_shown(
                    memory,
                    (start + PAGE * k) as u64,
                    bytes@.subrange(PAGE * k, PAGE * k + PAGE),
                    readable@[k],
                ),
        decreases 16 - p,
    {
        let at: u64 = start + PAGE * p as u64;
        let ghost before = bytes@;
        if whole {
            readable.push(true);
        } else {
            let ok = read_page(memory, at, &mut bytes, p);
            readable.push(ok);
            assert forall|k: int| 0 <= k < p implies #[trigger] page_shown(
                memory,
                (start + PAGE * k) as u64,
                bytes@.subrange(PAGE * k, PAGE * k + PAGE),
                readable@[k],
            ) by {
                assert(bytes@.subrange(PAGE * k, PAGE * k + PAGE) =~= before.subrange(
                    PAGE * k,
                    PAGE * k + PAGE,
                ));
                assert(page_shown(
                    memory,
                    (start + PAGE * k) as u64,
                    before.subrange(PAGE * k, PAGE * k + PAGE),
                    readable@[k],
                ));
            }
        }
        p = p + 1;
    }
    let window = Window { bytes, readable };
    assert(!whole ==> forall|p: int|
        0 <= p < 16 ==> #[trigger] page_shown(
            memory,
            (start + PAGE * p) as u64,
            window.page(p),
            window.readable@[p],
        )) by {
        assert forall|p: int| 0 <= p < 16 && !whole implies #[trigger] page_shown(
            memory,
            (start + PAGE * p) as u64,
            window.page(p),
            window.readable@[p],
        ) by {
            assert(window.page(p) == bytes@.subrange(PAGE * p, PAGE * p + PAGE));
        }
    }
    window
}

/// How a search through the table is getting on.
pub enum Progress {
    /// There is more to read.
    Pending,
    /// The table could not be read at all, which is never a statement about the
    /// game.
    Unreadable,
    Finished,
}

/// A search through the table for the instances of one class.
///
/// Reads the table, then the pages its entries point at, and keeps the entries
/// whose object has the vtable asked for. Validation is the same one a sweep
/// applies.
pub struct TableSearch {
    pub vtable: u64,
    pub validator: Validator,
    /// Stop once this many have been found.
    pub limit: usize,
    /// Writable ranges, in order.
    pub ranges: Vec<(u64, u64)>,
    pub walk: RangeWalk,
    /// The entries read so far; in order and without repeats once they all are.
    pub entries: Vec<u64>,
    pub sorted: bool,
    /// How many of the sorted entries have been looked at.
    pub at: usize,
    pub instances: Vec<u64>,
}

impl TableSearch {
    pub open spec fn wf(self) -> bool {
        &&& self.walk.wf()
        &&& in_order(self.ranges@)
        &&& self.instances@.len() < self.limit || self.instances@.len() == 0
        &&& forall|i: int| 0 <= i < self.entries@.len() ==> #[trigger] self.entries@[i] % 8 == 0
        &&& self.sorted ==> ascending(self.entries@) && self.at <= self.entries@.len()
        &&& !self.sorted ==> self.at == 0 && self.instances@.len() == 0
    }

    /// What is searched for, and where, stays as it is.
    pub open spec fn continues(self, before: TableSearch) -> bool {
        &&& self.vtable == before.vtable
        &&& self.validator == before.validator
        &&& self.limit == before.limit
        &&& self.ranges == before.ranges
    }

    /// What looking at the sorted entries for `budget` bytes' worth of windows
    /// leads to.
    pub open spec fn looked<M: Memory>(
        self,
        memory: &M,
        budget: int,
        after: TableSearch,
        progress: Progress,
    ) -> bool {
        let (stop, covered) = reach(self.entries@, self.at as int, budget);
        let all = self.instances@ + instances_in(
            memory,
            self.vtable,
            self.validator,
            self.entries@.subrange(self.at as int, stop),
        );
        &&& after.walk == self.walk
        &&& after.entries@ == self.entries@
        &&& after.sorted
        &&& if all.len() >= self.limit {
            &&& progress is Finished
            &&& after.instances@ == all.take(self.limit as int)
        } else {
            &&& after.instances@ == all
            &&& after.at == stop
            &&& progress == if covered {
                Progress::Finished
            } else {
                Progress::Pending
            }
        }
    }

    /// What a step leads to.
    pub open spec fn stepped<M: Memory>(
        self,
        memory: &M,
        budget: int,
        after: TableSearch,
        progress: Progress,
    ) -> bool {
        if self.sorted {
            self.looked(memory, budget, after, progress)
        } else {
            let (walk, entries, covered) = gathered(
                memory,
                self.ranges@,
                self.walk,
                self.entries@,
                budget,
            );
            if !covered {
                &&& progress is Pending
                &&& after.walk == walk
                &&& after.entries@ == entries
                &&& !after.sorted
                &&& after.at == self.at
                &&& after.instances@ == self.instances@
            } else if !walk.read_any {
                progress is Unreadable
            } else {
                exists|mid: TableSearch|
                    {
                        &&& #[trigger] mid.continues(self)
                        &&& mid.walk == walk
                        &&& ascending(mid.entries@)
                        &&& same_values(mid.entries@, entries)
                        &&& mid.sorted
                        &&& mid.at == 0
                        &&& mid.instances@ == self.instances@
                        &&& mid.looked(memory, budget, after, progress)
                    }
            }
        }
    }

    /// Reads up to `budget` bytes of the table, or of what it points at.
    pub fn step<M: Memory>(&mut self, memory: &M, budget: u64) -> (progress: Progress)
        requires
            old(self).wf(),
        ensures
            final(self).continues(*old(self)),
            progress is Pending ==> final(self).wf(),
            old(self).stepped(memory, budget as int, *final(self), progress),
    {
        if !self.sorted {
            if !self.gather(memory, budget) {
                return Progress::Pending;
            }
            if !self.walk.read_any {
                return Progress::Unreadable;
            }
            let entries = sorted_unique(self.entries.as_slice());
            assert forall|i: int| 0 <= i < entries@.len() implies #[trigger] entries@[i] % 8
                == 0 by {
                assert(entries@.contains(entries@[i]));
                let k = self.entries@.index_of(entries@[i]);
                assert(self.entries@.contains(entries@[i]));
                assert(self.entries@[k] % 8 == 0);
            }
            self.entries = entries;
            self.sorted = true;
            let ghost mid = *self;
            let progress = self.look(memory, budget);
            assert(mid.continues(*old(self)));
            progress
        } else {
            self.look(memory, budget)
        }
    }

    /// The table's entries that point at something writable, in table order.
    /// Returns whether the table is covered.
    #[verifier::loop_isolation(false)]
    fn gather<M: Memory>(&mut self, memory: &M, budget: u64) -> (covered: bool)
        requires
            old(self).wf(),
            !old(self).sorted,
        ensures
            final(self).wf(),
            final(self).continues(*old(self)),
            (final(self).walk, final(self).entries@, covered) == gathered(
                memory,
                old(self).ranges@,
                old(self).walk,
                old(self).entries@,
                budget as int,
            ),
            !final(self).sorted,
            final(self).at == old(self).at,
            final(self).instances == old(self).instances,
    {
        let mut left: u64 = budget;
        let ghost whole = gathered(memory, self.ranges@, self.walk, self.entries@, budget as int);
        loop
            invariant
                self.wf(),
                self.continues(*old(self)),
                !self.sorted,
                self.at == old(self).at,
                self.instances == old(self).instances,
                whole == gathered(memory, self.ranges@, self.walk, self.entries@, left as int),
            decreases self.walk.size - self.walk.offset,
        {
            let bytes: u64 = 8 * self.walk.next_words() as u64;
            if bytes == 0 {
                return true;
            }
            let words = self.walk.window(memory);
            let ghost before = self.entries@;
            let mut i: usize = 0;
            assert(words@.take(0) =~= Seq::<u64>::empty());
            assert(before + Seq::<u64>::empty() =~= before);
            let ghost walk = self.walk;
            while i < words.len()
                invariant
                    i <= words@.len(),
                    self.wf(),
                    self.continues(*old(self)),
                    !self.sorted,
                    self.at == old(self).at,
                    self.instances == old(self).instances,
                    self.walk == walk,
                    self.entries@ == before + entries_in(self.ranges@, words@.take(i as int)),
                decreases words@.len() - i,
            {
                let word: u64 = words[i];
                assert(words@.take(i + 1).drop_last() =~= words@.take(i as int));
                if word != 0 && word % 8 == 0 && mapped(self.ranges.as_slice(), word) {
                    self.entries.push(word);
                    assert(self.entries@ =~= before + entries_in(
                        self.ranges@,
                        words@.take(i + 1),
                    ));
                }
                i = i + 1;
            }
            assert(words@.take(i as int) =~= words@);
            if left <= bytes {
                return false;
            }
            left = left - bytes;
        }
    }

    /// Every instance the sorted entries from `at` on lead to.
    #[verifier::loop_isolation(false)]
    fn look<M: Memory>(&mut self, memory: &M, budget: u64) -> (progress: Progress)
        requires
            old(self).wf(),
            old(self).sorted,
        ensures
            final(self).continues(*old(self)),
            progress is Pending ==> final(self).wf(),
            old(self).looked(memory, budget as int, *final(self), progress),
    {
        let ghost from = self.at as int;
        let ghost had = self.instances@;
        let ghost (stop, covered) = reach(self.entries@, from, budget as int);
        let mut left: u64 = budget;
        if self.limit == 0 {
            proof {
                let all = had + instances_in(
                    memory,
                    self.vtable,
                    self.validator,
                    self.entries@.subrange(from, stop),
                );
                assert(all.take(0) =~= had);
            }
            return Progress::Finished;
        }
        assert(self.entries@.subrange(from, from) =~= Seq::<u64>::empty());
        assert(had + Seq::<u64>::empty() =~= had);
        proof {
            lemma_reach(self.entries@, from, budget as int);
        }
        while self.at < self.entries.len()
            invariant
                self.wf(),
                self.sorted,
                self.continues(*old(self)),
                self.walk == old(self).walk,
                self.entries == old(self).entries,
                from <= self.at,
                (stop, covered) == reach(self.entries@, self.at as int, left as int),
                self.at <= stop <= self.entries@.len(),
                self.instances@ == had + instances_in(
                    memory,
                    self.vtable,
                    self.validator,
                    self.entries@.subrange(from, self.at as int),
                ),
            decreases self.entries@.len() - self.at,
        {
            // Every entry inside one window, so a run of neighbouring objects
            // costs one read between them all.
            let start: u64 = self.entries[self.at] - self.entries[self.at] % WINDOW;
            let window = read_window(memory, start);
            let ghost run = self.entries@[self.at as int] as int / WINDOW as int;
            let ghost end = run_end(self.entries@, self.at + 1, run);
            let first: usize = self.at;
            proof {
                lemma_run_end(self.entries@, first + 1, run);
                lemma_reach(self.entries@, end, left - WINDOW);
            }
            assert(run_end(self.entries@, first as int, run) == end);
            while self.at < self.entries.len() && self.entries[self.at] - start < WINDOW
                invariant
                    self.wf(),
                    self.sorted,
                    self.continues(*old(self)),
                    self.walk == old(self).walk,
                    self.entries == old(self).entries,
                    first <= self.at,
                    end == run_end(self.entries@, self.at as int, run),
                    self.at <= end,
                    self.at < self.entries@.len() ==> self.entries@[self.at as int] >= start,
                    self.instances@ == had + instances_in(
                        memory,
                        self.vtable,
                        self.validator,
                        self.entries@.subrange(from, self.at as int),
                    ),
                decreases self.entries@.len() - self.at,
            {
                let object: u64 = self.entries[self.at];
                let ghost seen = self.entries@.subrange(from, self.at + 1);
                assert(seen.drop_last() =~= self.entries@.subrange(from, self.at as int));
                assert(object as int / WINDOW as int == run);
                proof {
                    lemma_run_end(self.entries@, self.at + 1, run);
                }
                let hit = window.leads_to(memory, start, object, self.vtable, self.validator);
                self.at = self.at + 1;
                if hit {
                    self.instances.push(object);
                    assert(self.instances@ =~= had + instances_in(
                        memory,
                        self.vtable,
                        self.validator,
                        seen,
                    ));
                    if self.instances.len() >= self.limit {
                        proof {
                            lemma_instances_split(
                                memory,
                                self.vtable,
                                self.validator,
                                self.entries@.subrange(from, stop),
                                self.at - from,
                            );
                            assert(self.entries@.subrange(from, stop).take(self.at - from) =~= seen);
                            let all = had + instances_in(
                                memory,
                                self.vtable,
                                self.validator,
                                self.entries@.subrange(from, stop),
                            );
                            assert(all.take(self.limit as int) =~= self.instances@);
                        }
                        return Progress::Finished;
                    }
                }
            }
            assert(self.at == end);
            if left <= WINDOW {
                return Progress::Pending;
            }
            left = left - WINDOW;
        }
        Progress::Finished
    }
}

proof fn lemma_run_end(entries: Seq<u64>, at: int, window: int)
    requires
        0 <= at <= entries.len(),
    ensures
        at <= run_end(entries, at, window) <= entries.len(),
    decreases entries.len() - at,
{
    if at < entries.len() && entries[at] as int / WINDOW as int == window {
        lemma_run_end(entries, at + 1, window);
    }
}

proof fn lemma_reach(entries: Seq<u64>, at: int, left: int)
    requires
        0 <= at <= entries.len(),
    ensures
        at <= reach(entries, at, left).0 <= entries.len(),
    decreases entries.len() - at,
{
    if at < entries.len() {
        let window = entries[at] as int / WINDOW as int;
        lemma_run_end(entries, at + 1, window);
        let stop = run_end(entries, at + 1, window);
        if left > WINDOW {
            lemma_reach(entries, stop, left - WINDOW);
        }
    }
}

proof fn lemma_instances_split<M: Memory>(
    memory: &M,
    vtable: u64,
    validator: Validator,
    objects: Seq<u64>,
    n: int,
)
    requires
        0 <= n <= objects.len(),
    ensures
        instances_in(memory, vtable, validator, objects.take(n)).is_prefix_of(
            instances_in(memory, vtable, validator, objects),
        ),
    decreases objects.len() - n,
{
    if n < objects.len() {
        assert(objects.take(n + 1).drop_last() =~= objects.take(n));
        lemma_instances_split(memory, vtable, validator, objects, n + 1);
    } else {
        assert(objects.take(n) =~= objects);
    }
}

/// The ranges of `holders`, each once, without any that `anchor` itself lies
/// in: an object is in that one, so it is a heap section.
pub open spec fn candidates_among(holders: Seq<(u64, u64)>, anchor: u64) -> Seq<(u64, u64)>
    decreases holders.len(),
{
    if holders.len() == 0 {
        Seq::empty()
    } else {
        let rest = candidates_among(holders.drop_last(), anchor);
        let (base, size) = holders.last();
        if base <= anchor && anchor - base < size {
            rest
        } else {
            noted(rest, holders.last())
        }
    }
}

/// What telling the table from the heap sections has come to.
pub enum Verdict {
    /// There is more to read.
    Pending,
    Found(ReferenceTable),
    /// No candidate was one.
    Nothing,
}

/// Picks the table out of ranges known to hold a pointer to an object already
/// located.
///
/// Candidates are told apart by content, not by size or address. A heap section
/// is full of object headers -- words pointing into the region where vtables
/// live -- and the table has none. See [`MAX_HEADER_WORDS`].
pub struct Identify {
    /// Where vtables live: a base and a size.
    pub metadata: (u64, u64),
    pub candidates: Vec<(u64, u64)>,
    /// The candidate being read, how far, and the headers seen in it.
    pub index: usize,
    pub walk: RangeWalk,
    pub counted: u32,
}

/// The part of a candidate that is looked at.
pub open spec fn looked_at(size: u64) -> u64 {
    if size < MAX_RANGE_READ {
        size
    } else {
        MAX_RANGE_READ
    }
}

fn at_most(size: u64) -> (bounded: u64)
    ensures
        bounded == looked_at(size),
{
    if size < MAX_RANGE_READ {
        size
    } else {
        MAX_RANGE_READ
    }
}

/// A walk over a candidate, from its start.
pub open spec fn walk_over(candidates: Seq<(u64, u64)>, index: int) -> RangeWalk {
    if 0 <= index < candidates.len() {
        RangeWalk {
            base: candidates[index].0,
            size: looked_at(candidates[index].1),
            offset: 0,
            read_any: false,
        }
    } else {
        RangeWalk { base: 0, size: 0, offset: 0, read_any: false }
    }
}

fn walk_at(candidates: &Vec<(u64, u64)>, index: usize) -> (walk: RangeWalk)
    ensures
        walk == walk_over(candidates@, index as int),
{
    if index < candidates.len() {
        RangeWalk::new(candidates[index].0, at_most(candidates[index].1))
    } else {
        RangeWalk::new(0, 0)
    }
}

/// Where judging candidates from `index` on comes to a rest: at the first that
/// has few enough headers, at one whose reading has to go on later, or past the
/// last. The third value counts the headers there; the last is whether the
/// candidate is covered.
pub open spec fn judged<M: Memory>(
    memory: &M,
    metadata: (u64, u64),
    candidates: Seq<(u64, u64)>,
    index: int,
    walk: RangeWalk,
    counted: int,
    budget: int,
) -> (int, RangeWalk, int, bool)
    decreases candidates.len() - index,
{
    if index >= candidates.len() {
        (index, walk, counted, true)
    } else {
        let (next, headers, covered) = headers_counted(
            memory,
            walk,
            metadata,
            MAX_HEADER_WORDS,
            counted,
            budget,
        );
        if !covered || headers <= MAX_HEADER_WORDS {
            (index, next, headers, covered)
        } else {
            judged(
                memory,
                metadata,
                candidates,
                index + 1,
                walk_over(candidates, index + 1),
                0,
                budget,
            )
        }
    }
}

impl Identify {
    pub open spec fn wf(self) -> bool {
        self.walk.wf() && self.counted <= MAX_HEADER_WORDS
    }

    /// What a step leads to.
    pub open spec fn stepped<M: Memory>(
        self,
        memory: &M,
        budget: int,
        after: Identify,
        verdict: Verdict,
        said: Seq<Note>,
    ) -> bool {
        let (index, walk, headers, covered) = judged(
            memory,
            self.metadata,
            self.candidates@,
            self.index as int,
            self.walk,
            self.counted as int,
            budget,
        );
        if index >= self.candidates@.len() {
            verdict is Nothing && said == seq![Note::NoTable]
        } else if covered {
            let (base, size) = self.candidates@[index];
            &&& verdict == Verdict::Found(ReferenceTable { base, seen: size, misses: 0 })
            &&& said == seq![Note::TableFound { base, size, headers: headers as u32 }]
        } else {
            &&& verdict is Pending
            &&& said == Seq::<Note>::empty()
            &&& after.metadata == self.metadata
            &&& after.candidates@ == self.candidates@
            &&& after.index == index
            &&& after.walk == walk
            &&& after.counted == headers
        }
    }

    /// How judging `holders` begins. It does not where the anchor's class cannot
    /// be placed in any mapped range.
    pub open spec fn begun<M: Memory>(
        memory: &M,
        ranges: Seq<MemoryRange>,
        anchor: u64,
        holders: Seq<(u64, u64)>,
        identify: Option<Identify>,
    ) -> bool {
        let metadata = match pointer_at(memory, anchor) {
            Some(vtable) => region_of(ranges, vtable),
            None => None,
        };
        &&& identify is Some <==> metadata is Some
        &&& identify matches Some(i) ==> {
            &&& i.wf()
            &&& i.metadata == metadata->0
            &&& i.candidates@ == candidates_among(holders, anchor)
            &&& i.index == 0
            &&& i.walk == walk_over(i.candidates@, 0)
            &&& i.counted == 0
        }
    }

    /// Gets ready to judge `holders`, which hold pointers to `anchor`. `None` if
    /// the anchor's class cannot be placed in any mapped range.
    pub fn begin<M: Memory>(
        memory: &M,
        ranges: &[MemoryRange],
        anchor: u64,
        holders: &[(u64, u64)],
    ) -> (identify: Option<Self>)
        ensures
            Self::begun(memory, ranges@, anchor, holders@, identify),
    {
        let vtable: u64 = match vtable_of(memory, anchor) {
            Some(vtable) => vtable,
            None => {
                return None;
            },
        };
        let metadata: (u64, u64) = match region_containing(ranges, vtable) {
            Some(region) => region,
            None => {
                return None;
            },
        };
        let mut candidates: Vec<(u64, u64)> = Vec::new();
        let mut i: usize = 0;
        while i < holders.len()
            invariant
                i <= holders@.len(),
                candidates@ == candidates_among(holders@.take(i as int), anchor),
            decreases holders@.len() - i,
        {
            assert(holders@.take(i + 1).drop_last() =~= holders@.take(i as int));
            let (base, size): (u64, u64) = holders[i];
            // The range the anchor itself sits in is a heap section by
            // definition -- an object is in it -- so it needs no statistics.
            if !(base <= anchor && anchor - base < size) {
                note(&mut candidates, (base, size));
            }
            i = i + 1;
        }
        assert(holders@.take(i as int) =~= holders@);
        let walk = walk_at(&candidates, 0);
        Some(Identify { metadata, candidates, index: 0, walk, counted: 0 })
    }

    /// Reads on, up to `budget` bytes of a candidate at a time.
    #[verifier::loop_isolation(false)]
    pub fn step<M: Memory>(&mut self, memory: &M, budget: u64, log: &mut Vec<Note>) -> (verdict:
        Verdict)
        requires
            old(self).wf(),
        ensures
            verdict is Pending ==> final(self).wf(),
            old(log)@.is_prefix_of(final(log)@),
            old(self).stepped(
                memory,
                budget as int,
                *final(self),
                verdict,
                final(log)@.skip(old(log)@.len() as int),
            ),
    {
        let ghost whole = judged(
            memory,
            self.metadata,
            self.candidates@,
            self.index as int,
            self.walk,
            self.counted as int,
            budget as int,
        );
        while self.index < self.candidates.len()
            invariant
                self.wf(),
                self.metadata == old(self).metadata,
                self.candidates@ == old(self).candidates@,
                log@ == old(log)@,
                whole == judged(
                    memory,
                    self.metadata,
                    self.candidates@,
                    self.index as int,
                    self.walk,
                    self.counted as int,
                    budget as int,
                ),
            decreases self.candidates@.len() - self.index,
        {
            let (base, size): (u64, u64) = self.candidates[self.index];
            let (headers, covered) = header_words(
                memory,
                &mut self.walk,
                self.metadata,
                MAX_HEADER_WORDS,
                self.counted,
                budget,
            );
            if !covered {
                self.counted = headers;
                assert(log@.skip(old(log)@.len() as int) =~= Seq::<Note>::empty());
                return Verdict::Pending;
            }
            if headers <= MAX_HEADER_WORDS {
                log.push(Note::TableFound { base, size, headers });
                assert(log@.skip(old(log)@.len() as int) =~= seq![
                    Note::TableFound { base, size, headers },
                ]);
                return Verdict::Found(ReferenceTable { base, seen: size, misses: 0 });
            }
            self.index = self.index + 1;
            self.walk = walk_at(&self.candidates, self.index);
            self.counted = 0;
        }
        log.push(Note::NoTable);
        assert(log@.skip(old(log)@.len() as int) =~= seq![Note::NoTable]);
        Verdict::Nothing
    }
}

impl ReferenceTable {
    /// Whether the table is still mapped where it was found.
    ///
    /// One read. A table that has gone is worth dropping rather than paying a
    /// failed lookup for on every scene change.
    pub fn still_mapped<M: Memory>(&self, memory: &M) -> (mapped: bool)
        ensures
            mapped == (u64_at(memory, self.base) is Some),
    {
        read_u64(memory, self.base).is_some()
    }

    /// The table answered a question. Whatever it missed before, it is the
    /// right table.
    pub fn answered(&mut self)
        ensures
            *final(self) == (ReferenceTable { misses: 0, ..*old(self) }),
    {
        self.misses = 0;
    }

    /// The table could not answer and a sweep could, which is the only evidence
    /// that distinguishes a table that has gone wrong from a question with no
    /// answer.
    pub fn was_missing(&mut self)
        ensures
            *final(self) == (ReferenceTable {
                misses: counted32(old(self).misses, 1),
                ..*old(self)
            }),
    {
        self.misses = self.misses.saturating_add(1);
    }

    /// Whether it has missed often enough to be worth finding again.
    pub fn is_stale(&self) -> (stale: bool)
        ensures
            stale == (self.misses >= MISSES_BEFORE_REFINDING),
    {
        self.misses >= MISSES_BEFORE_REFINDING
    }

    /// How far the table extends among `ranges`, capped at [`MAX_RANGE_READ`] so
    /// that a range which has coalesced with its neighbours cannot turn a search
    /// into a sweep of something else.
    pub open spec fn extends(self, ranges: Seq<MemoryRange>) -> Option<u64> {
        match region_of(ranges, self.base) {
            Some((_, size)) => Some(looked_at(size)),
            None => None,
        }
    }

    /// The table after its extent was taken, and what is said of it: a change
    /// is, once.
    pub open spec fn extended(self, ranges: Seq<MemoryRange>) -> (Self, Seq<Note>) {
        match self.extends(ranges) {
            Some(size) => if size != self.seen {
                (
                    ReferenceTable { seen: size, ..self },
                    seq![Note::TableResized { base: self.base, size, was: self.seen }],
                )
            } else {
                (self, Seq::empty())
            },
            None => (self, Seq::empty()),
        }
    }

    /// How far the table currently extends, taken afresh from the ranges.
    pub fn extent(&mut self, ranges: &[MemoryRange], log: &mut Vec<Note>) -> (size: Option<u64>)
        ensures
            size == old(self).extends(ranges@),
            *final(self) == old(self).extended(ranges@).0,
            final(log)@ == old(log)@ + old(self).extended(ranges@).1,
    {
        let size: u64 = match region_containing(ranges, self.base) {
            Some((_, size)) => at_most(size),
            None => {
                assert(log@ + Seq::<Note>::empty() =~= log@);
                return None;
            },
        };
        if size != self.seen {
            let resized = Note::TableResized { base: self.base, size, was: self.seen };
            log.push(resized);
            assert(log@ =~= old(log)@ + seq![resized]);
            self.seen = size;
        } else {
            assert(log@ + Seq::<Note>::empty() =~= log@);
        }
        Some(size)
    }

    /// Begins a search for every live instance of the class with this vtable, up
    /// to `limit`. `None` if the table is not mapped anywhere.
    pub fn instances(
        &mut self,
        ranges: &[MemoryRange],
        vtable: u64,
        validator: Validator,
        limit: usize,
        log: &mut Vec<Note>,
    ) -> (search: Option<TableSearch>)
        ensures
            *final(self) == old(self).extended(ranges@).0,
            final(log)@ == old(log)@ + old(self).extended(ranges@).1,
            search is Some <==> old(self).extends(ranges@) is Some,
            search matches Some(s) ==> s.wf() && s.vtable == vtable && s.validator == validator
                && s.limit == limit && s.ranges@.to_multiset() == writable(ranges@).to_multiset()
                && s.walk == (RangeWalk {
                base: old(self).base,
                size: old(self).extends(ranges@)->0,
                offset: 0,
                read_any: false,
            }) && s.entries@.len() == 0 && !s.sorted && s.at == 0 && s.instances@.len() == 0,
    {
        let sorted = writable_ranges(ranges);
        let size: u64 = match self.extent(ranges, log) {
            Some(size) => size,
            None => {
                return None;
            },
        };
        Some(
            TableSearch {
                vtable,
                validator,
                limit,
                ranges: sorted,
                walk: RangeWalk::new(self.base, size),
                entries: Vec::new(),
                sorted: false,
                at: 0,
                instances: Vec::new(),
            },
        )
    }
}

/// A table after lookups that it answered, or missed.
pub open spec fn after_lookups(table: ReferenceTable, answered: Seq<bool>) -> ReferenceTable
    decreases answered.len(),
{
    if answered.len() == 0 {
        table
    } else {
        let before = after_lookups(table, answered.drop_last());
        if answered.last() {
            ReferenceTable { misses: 0, ..before }
        } else {
            ReferenceTable { misses: counted32(before.misses, 1), ..before }
        }
    }
}

/// How many of the last lookups in a row were missed.
pub open spec fn missed_last(answered: Seq<bool>) -> nat
    decreases answered.len(),
{
    if answered.len() == 0 || answered.last() {
        0
    } else {
        missed_last(answered.drop_last()) + 1
    }
}

/// Only misses in a row make a table stale: one answer clears what came before
/// it, and the table itself stays the one that was found.
pub proof fn only_misses_in_a_row_are_stale(table: ReferenceTable, answered: Seq<bool>)
    requires
        table.misses == 0,
    ensures
        after_lookups(table, answered).misses >= MISSES_BEFORE_REFINDING <==> missed_last(answered)
            >= MISSES_BEFORE_REFINDING,
        after_lookups(table, answered).base == table.base,
        after_lookups(table, answered).seen == table.seen,
{
    lemma_misses(table, answered);
}

proof fn lemma_misses(table: ReferenceTable, answered: Seq<bool>)
    requires
        table.misses == 0,
    ensures
        after_lookups(table, answered).misses == if missed_last(answered) <= u32::MAX {
            missed_last(answered)
        } else {
            u32::MAX as nat
        },
        after_lookups(table, answered).base == table.base,
        after_lookups(table, answered).seen == table.seen,
    decreases answered.len(),
{
    if answered.len() > 0 {
        lemma_misses(table, answered.drop_last());
    }
}

} // verus!
