//! What a sweep notes of the ranges it goes through.
use vstd::bytes::lemma_auto_spec_u64_to_from_le_bytes;
use vstd::prelude::*;

use crate::memory::{is_coherent, plus, word_of, Memory, MemoryRange};
use crate::promise::heap::{is_place, only_the_heap_is_looked_at};
use crate::promise::reading::{has_word, is_honest, top};
use crate::scan::{
    chunk_words, chunked, compared, noted, paged, places, sifted, sliced, surveyed, words_at,
    Quarry, Scan, Tally,
};
use crate::service::Locatable;

verus! {

/// Whether an address is in a range.
pub open spec fn lies_in(range: (u64, u64), at: u64) -> bool {
    range.0 <= at < range.0 + range.1
}

/// Whether each thing found has a range noted for it that it is in, one of those
/// swept.
pub open spec fn are_in_ranges(
    found: Seq<u64>,
    found_ranges: Seq<(u64, u64)>,
    ranges: Seq<(u64, u64)>,
) -> bool {
    &&& found.len() == found_ranges.len()
    &&& forall|i: int|
        0 <= i < found.len() ==> ranges.contains(#[trigger] found_ranges[i]) && lies_in(
            found_ranges[i],
            found[i],
        )
}

/// Whether ranges end inside the address space.
pub open spec fn are_inside(ranges: Seq<(u64, u64)>) -> bool {
    forall|i: int| 0 <= i < ranges.len() ==> (#[trigger] ranges[i]).0 + ranges[i].1 <= top()
}

proof fn lemma_places(words: Seq<u64>, start: u64, needle: u64, i: int, range: (u64, u64))
    requires
        0 <= i,
        range.0 <= start,
        start + 8 * words.len() <= range.0 + range.1 <= top(),
    ensures
        forall|k: int|
            0 <= k < places(words, start, needle, i).len() ==> lies_in(
                range,
                #[trigger] places(words, start, needle, i)[k],
            ),
    decreases words.len() - i,
{
    if i < words.len() {
        lemma_places(words, start, needle, i + 1, range);
        let rest = places(words, start, needle, i + 1);
        let all = places(words, start, needle, i);
        assert forall|k: int| 0 <= k < all.len() implies lies_in(range, #[trigger] all[k]) by {
            if words[i] == needle {
                if k > 0 {
                    assert(all[k] == rest[k - 1]);
                } else {
                    assert(all[0] == plus(start, (8 * i) as u64));
                }
            }
        }
    }
}

proof fn lemma_sifted<M: Memory>(
    memory: &M,
    quarry: Quarry,
    range: (u64, u64),
    candidates: Seq<u64>,
    tally: Tally,
    ranges: Seq<(u64, u64)>,
)
    requires
        ranges.contains(range),
        are_in_ranges(tally.found, tally.found_ranges, ranges),
        forall|k: int| 0 <= k < candidates.len() ==> lies_in(range, #[trigger] candidates[k]),
    ensures
        ({
            let after = sifted(memory, quarry, range, candidates, tally);
            &&& are_in_ranges(after.found, after.found_ranges, ranges)
            &&& after.anchor_ranges == tally.anchor_ranges
            &&& quarry.limit is None && !tally.stopped ==> !after.stopped
        }),
    decreases candidates.len(),
{
    if !tally.stopped && candidates.len() > 0 {
        let candidate = candidates[0];
        let rest = candidates.drop_first();
        assert forall|k: int| 0 <= k < rest.len() implies lies_in(range, #[trigger] rest[k]) by {
            assert(rest[k] == candidates[k + 1]);
        }
        let next = if quarry.validator matches Some(v) && !v.admits(memory, candidate) {
            Tally { rejected: tally.rejected.push(candidate), ..tally }
        } else {
            Tally {
                found: tally.found.push(candidate),
                found_ranges: tally.found_ranges.push(range),
                stopped: quarry.limit matches Some(n) && tally.found.len() + 1 >= n,
                ..tally
            }
        };
        assert forall|i: int| 0 <= i < next.found.len() implies ranges.contains(
            #[trigger] next.found_ranges[i],
        ) && lies_in(next.found_ranges[i], next.found[i]) by {
            if i < tally.found.len() {
                assert(next.found_ranges[i] == tally.found_ranges[i]);
                assert(next.found[i] == tally.found[i]);
            }
        }
        lemma_sifted(memory, quarry, range, rest, next, ranges);
    }
}

/// What a run of words adds to the notes.
proof fn lemma_compared<M: Memory>(
    memory: &M,
    quarry: Quarry,
    range: (u64, u64),
    start: u64,
    words: Seq<u64>,
    tally: Tally,
    ranges: Seq<(u64, u64)>,
)
    requires
        ranges.contains(range),
        are_in_ranges(tally.found, tally.found_ranges, ranges),
        range.0 <= start,
        start + 8 * words.len() <= range.0 + range.1 <= top(),
    ensures
        ({
            let after = compared(memory, quarry, range, start, words, tally);
            &&& are_in_ranges(after.found, after.found_ranges, ranges)
            &&& after.anchor_ranges == if quarry.anchor matches Some(anchor) && words.contains(
                anchor,
            ) {
                noted(tally.anchor_ranges, range)
            } else {
                tally.anchor_ranges
            }
            &&& quarry.limit is None && !tally.stopped ==> !after.stopped
        }),
{
    let anchored = if quarry.anchor matches Some(anchor) && words.contains(anchor) {
        Tally { anchor_ranges: noted(tally.anchor_ranges, range), ..tally }
    } else {
        tally
    };
    lemma_places(words, start, quarry.needle, 0, range);
    lemma_sifted(
        memory,
        quarry,
        range,
        places(words, start, quarry.needle, 0),
        anchored,
        ranges,
    );
}

proof fn lemma_paged<M: Memory>(
    memory: &M,
    quarry: Quarry,
    range: (u64, u64),
    start: u64,
    n: int,
    done: int,
    tally: Tally,
    ranges: Seq<(u64, u64)>,
)
    requires
        0 <= done,
        ranges.contains(range),
        are_in_ranges(tally.found, tally.found_ranges, ranges),
        range.0 <= start,
        start + 8 * n <= range.0 + range.1 <= top(),
    ensures
        ({
            let after = paged(memory, quarry, range, start, n, done, tally);
            are_in_ranges(after.found, after.found_ranges, ranges)
        }),
    decreases n - done,
{
    if !tally.stopped && done < n {
        let size = if n - done < 512 {
            n - done
        } else {
            512
        };
        let at = plus(start, (8 * done) as u64);
        match words_at(memory, at, size) {
            Some(words) => {
                let read = Tally { stats: tally.stats.read(8 * size), ..tally };
                lemma_compared(memory, quarry, range, at, words, read, ranges);
                lemma_paged(
                    memory,
                    quarry,
                    range,
                    start,
                    n,
                    done + size,
                    compared(memory, quarry, range, at, words, read),
                    ranges,
                );
            },
            None => {
                lemma_paged(
                    memory,
                    quarry,
                    range,
                    start,
                    n,
                    done + size,
                    Tally { stats: tally.stats.lost(8 * size), ..tally },
                    ranges,
                );
            },
        }
    }
}

proof fn lemma_sliced<M: Memory>(
    memory: &M,
    quarry: Quarry,
    ranges: Seq<(u64, u64)>,
    index: int,
    offset: u64,
    tally: Tally,
    left: int,
)
    requires
        are_inside(ranges),
        0 <= index,
        are_in_ranges(tally.found, tally.found_ranges, ranges),
    ensures
        ({
            let (_, _, after, _) = sliced(memory, quarry, ranges, index, offset, tally, left);
            are_in_ranges(after.found, after.found_ranges, ranges)
        }),
    decreases ranges.len() - index, ranges[index].1 - offset,
{
    if quarry.limit != Some(0usize) && left > 0 && index < ranges.len() {
        let range = ranges[index];
        let n = chunk_words(range.1, offset);
        if n == 0 {
            lemma_sliced(memory, quarry, ranges, index + 1, 0, tally, left);
        } else {
            let start = plus(range.0, offset);
            assert(ranges.contains(range));
            assert(start == range.0 + offset);
            match words_at(memory, start, n) {
                Some(words) => {
                    let read = Tally { stats: tally.stats.read(8 * n), ..tally };
                    lemma_compared(memory, quarry, range, start, words, read, ranges);
                },
                None => {
                    let failed = Tally { stats: tally.stats.failed(), ..tally };
                    lemma_paged(memory, quarry, range, start, n, 0, failed, ranges);
                },
            }
            let next = chunked(memory, quarry, range, start, n, tally);
            let after = (offset + 8 * n) as u64;
            if !next.stopped {
                lemma_sliced(memory, quarry, ranges, index, after, next, left - 8 * n);
            }
        }
    }
}

/// Each thing that a sweep finds is in the range noted for it, which is one of
/// those swept.
pub proof fn what_is_found_is_in_its_range<M: Memory>(
    memory: &M,
    scan: Scan,
    budget: int,
    after: Scan,
    done: bool,
)
    requires
        are_inside(scan.ranges@),
        are_in_ranges(scan.found@, scan.found_ranges@, scan.ranges@),
        scan.stepped(memory, budget, after, done),
    ensures
        are_in_ranges(after.found@, after.found_ranges@, after.ranges@),
{
    let begun = Tally { stats: scan.stats.sliced(), ..scan.tally() };
    lemma_sliced(
        memory,
        scan.quarry(),
        scan.ranges@,
        scan.range_index as int,
        scan.offset,
        begun,
        budget,
    );
    assert(after.tally().found == after.found@);
    assert(after.tally().found_ranges == after.found_ranges@);
}

/// Whether one of the words of a range, in front of `upto`, is this one.
pub open spec fn has_in<M: Memory>(memory: &M, range: (u64, u64), upto: int, word: u64) -> bool {
    exists|k: int| 0 <= k && 8 * k + 8 <= upto && #[trigger] has_word(memory, range.0 + 8 * k, word)
}

/// Whether all ranges can be read.
pub open spec fn can_be_read<M: Memory>(memory: &M, ranges: Seq<(u64, u64)>) -> bool {
    &&& is_coherent(memory)
    &&& is_honest(memory)
    &&& are_inside(ranges)
    &&& forall|i: int|
        0 <= i < ranges.len() ==> memory.contents(
            (#[trigger] ranges[i]).0,
            ranges[i].1 as nat,
        ) is Some
}

/// Whether the ranges noted for the anchor are those that have it, as far as they
/// have been swept.
pub open spec fn are_noted<M: Memory>(
    memory: &M,
    anchor: u64,
    ranges: Seq<(u64, u64)>,
    index: int,
    offset: int,
    noted: Seq<(u64, u64)>,
) -> bool {
    &&& forall|range: (u64, u64)| #[trigger]
        noted.contains(range) ==> ranges.contains(range) && has_in(
            memory,
            range,
            range.1 as int,
            anchor,
        )
    &&& forall|i: int|
        0 <= i < index && i < ranges.len() && has_in(
            memory,
            #[trigger] ranges[i],
            ranges[i].1 as int,
            anchor,
        ) ==> noted.contains(ranges[i])
    &&& index < ranges.len() && has_in(memory, ranges[index], offset, anchor) ==> noted.contains(
        ranges[index],
    )
}

proof fn lemma_chunk_has<M: Memory>(
    memory: &M,
    range: (u64, u64),
    offset: u64,
    n: int,
    anchor: u64,
)
    requires
        is_coherent(memory),
        is_honest(memory),
        range.0 + range.1 <= top(),
        memory.contents(range.0, range.1 as nat) is Some,
        n > 0,
        offset + 8 * n <= range.1,
        offset % 8 == 0,
    ensures
        words_at(memory, (range.0 + offset) as u64, n) matches Some(words) && words.len() == n && (
        words.contains(anchor) <==> exists|k: int|
            offset <= 8 * k && 8 * k + 8 <= offset + 8 * n && #[trigger] has_word(
                memory,
                range.0 + 8 * k,
                anchor,
            )),
{
    lemma_auto_spec_u64_to_from_le_bytes();
    let start = (range.0 + offset) as u64;
    assert(memory.contents(start, (8 * n) as nat) is Some);
    let bytes = memory.contents(start, (8 * n) as nat)->0;
    let words = words_at(memory, start, n)->0;
    assert forall|i: int| 0 <= i < n implies (words[i] == anchor <==> has_word(
        memory,
        range.0 + offset + 8 * i,
        anchor,
    )) by {
        let at = (start + 8 * i) as u64;
        assert(memory.contents(at, 8) == Some(bytes.subrange(8 * i, 8 * i + 8)));
        assert(words[i] == word_of(bytes, i));
    }
    if words.contains(anchor) {
        let i = words.index_of(anchor);
        let k = offset as int / 8 + i;
        assert(8 * k == offset + 8 * i);
        assert(has_word(memory, range.0 + 8 * k, anchor));
    }
    if exists|k: int|
        offset <= 8 * k && 8 * k + 8 <= offset + 8 * n && #[trigger] has_word(
            memory,
            range.0 + 8 * k,
            anchor,
        ) {
        let k = choose|k: int|
            offset <= 8 * k && 8 * k + 8 <= offset + 8 * n && #[trigger] has_word(
                memory,
                range.0 + 8 * k,
                anchor,
            );
        let i = k - offset as int / 8;
        assert(8 * k == offset + 8 * i);
        assert(words[i] == anchor);
    }
}

proof fn lemma_sliced_notes<M: Memory>(
    memory: &M,
    quarry: Quarry,
    ranges: Seq<(u64, u64)>,
    index: int,
    offset: u64,
    tally: Tally,
    left: int,
    anchor: u64,
)
    requires
        can_be_read(memory, ranges),
        quarry.anchor == Some(anchor),
        quarry.limit is None,
        !tally.stopped,
        0 <= index <= ranges.len(),
        index < ranges.len() ==> offset <= ranges[index].1 && offset % 8 == 0,
        are_in_ranges(tally.found, tally.found_ranges, ranges),
        are_noted(memory, anchor, ranges, index, offset as int, tally.anchor_ranges),
    ensures
        ({
            let (to, at, after, done) = sliced(memory, quarry, ranges, index, offset, tally, left);
            &&& 0 <= to <= ranges.len()
            &&& to < ranges.len() ==> at <= ranges[to].1 && at % 8 == 0
            &&& are_noted(memory, anchor, ranges, to, at as int, after.anchor_ranges)
            &&& done ==> to == ranges.len()
        }),
    decreases ranges.len() - index, ranges[index].1 - offset,
{
    if left > 0 && index < ranges.len() {
        let range = ranges[index];
        let n = chunk_words(range.1, offset);
        let notes = tally.anchor_ranges;
        assert(ranges.contains(range));
        if n == 0 {
            assert(range.1 - offset < 8);
            if has_in(memory, range, range.1 as int, anchor) {
                let k = choose|k: int|
                    0 <= k && 8 * k + 8 <= range.1 && #[trigger] has_word(
                        memory,
                        range.0 + 8 * k,
                        anchor,
                    );
                assert(8 * k + 8 <= offset);
                assert(has_in(memory, range, offset as int, anchor));
            }
            if index + 1 < ranges.len() {
                assert(!has_in(memory, ranges[index + 1], 0, anchor));
            }
            lemma_sliced_notes(memory, quarry, ranges, index + 1, 0, tally, left, anchor);
        } else {
            let start = plus(range.0, offset);
            assert(start == range.0 + offset);
            lemma_chunk_has(memory, range, offset, n, anchor);
            let words = words_at(memory, start, n)->0;
            let read = Tally { stats: tally.stats.read(8 * n), ..tally };
            lemma_compared(memory, quarry, range, start, words, read, ranges);
            let next = chunked(memory, quarry, range, start, n, tally);
            let after = (offset + 8 * n) as u64;
            let more = next.anchor_ranges;
            assert forall|r: (u64, u64)| #[trigger] more.contains(r) <==> notes.contains(r) || (r
                == range && words.contains(anchor)) by {
                if more.contains(r) {
                    let i = more.index_of(r);
                    if i < notes.len() {
                        assert(notes[i] == r);
                    }
                }
                if notes.contains(r) {
                    let i = notes.index_of(r);
                    assert(more[i] == r);
                } else if r == range && words.contains(anchor) {
                    assert(more[notes.len() as int] == r);
                }
            }
            if words.contains(anchor) {
                let k = choose|k: int|
                    offset <= 8 * k && 8 * k + 8 <= offset + 8 * n && #[trigger] has_word(
                        memory,
                        range.0 + 8 * k,
                        anchor,
                    );
                assert(has_in(memory, range, range.1 as int, anchor));
            }
            if has_in(memory, range, after as int, anchor) {
                let k = choose|k: int|
                    0 <= k && 8 * k + 8 <= after && #[trigger] has_word(
                        memory,
                        range.0 + 8 * k,
                        anchor,
                    );
                if 8 * k + 8 <= offset {
                    assert(has_in(memory, range, offset as int, anchor));
                }
                assert(more.contains(range));
            }
            lemma_sliced_notes(
                memory,
                quarry,
                ranges,
                index,
                after,
                next,
                left - 8 * n,
                anchor,
            );
        }
    }
}

/// A sweep that goes through all notes every range that has the anchor in it, and
/// no other: as far as it has come at any time, and all of them at its end.
pub proof fn every_range_with_the_anchor_is_noted<M: Memory>(
    memory: &M,
    scan: Scan,
    budget: int,
    after: Scan,
    done: bool,
    anchor: u64,
)
    requires
        scan.wf(),
        scan.anchor == Some(anchor),
        scan.limit is None,
        scan.offset % 8 == 0,
        can_be_read(memory, scan.ranges@),
        are_in_ranges(scan.found@, scan.found_ranges@, scan.ranges@),
        are_noted(
            memory,
            anchor,
            scan.ranges@,
            scan.range_index as int,
            scan.offset as int,
            scan.anchor_ranges@,
        ),
        scan.stepped(memory, budget, after, done),
    ensures
        are_noted(
            memory,
            anchor,
            after.ranges@,
            after.range_index as int,
            after.offset as int,
            after.anchor_ranges@,
        ),
        done ==> forall|range: (u64, u64)|
            after.ranges@.contains(range) && #[trigger] has_in(
                memory,
                range,
                range.1 as int,
                anchor,
            ) ==> after.anchor_ranges@.contains(range),
{
    let begun = Tally { stats: scan.stats.sliced(), ..scan.tally() };
    lemma_sliced_notes(
        memory,
        scan.quarry(),
        scan.ranges@,
        scan.range_index as int,
        scan.offset,
        begun,
        budget,
        anchor,
    );
    assert(after.tally().anchor_ranges == after.anchor_ranges@);
    assert(after.ranges@ == scan.ranges@);
    if done {
        assert forall|range: (u64, u64)|
            after.ranges@.contains(range) && #[trigger] has_in(
                memory,
                range,
                range.1 as int,
                anchor,
            ) implies after.anchor_ranges@.contains(range) by {
            let i = after.ranges@.index_of(range);
            assert(after.ranges@[i] == range);
        }
    }
}

/// A sweep that begins has the whole heap in front of it: every range that can be
/// read and written and holds no code. It looks for the class it is for, and has
/// found nothing yet.
pub proof fn a_sweep_begins_with_the_whole_heap(
    class: Locatable,
    ranges: Seq<MemoryRange>,
    limit: Option<usize>,
    anchor: Option<u64>,
    scan: Scan,
    i: int,
)
    requires
        class.fresh_sweep(ranges, limit, anchor, scan),
        0 <= i < ranges.len(),
        ranges[i].flags & 1 == 1,
        ranges[i].flags & 2 == 2,
        ranges[i].flags & 4 == 0,
    ensures
        scan.ranges@.contains((ranges[i].address, ranges[i].size)),
        scan.range_index == 0,
        scan.offset == 0,
        scan.needle == class.vtable,
        scan.validator == Some(class.validator),
        scan.anchor == anchor,
        scan.limit == limit,
        scan.found@.len() == 0,
        scan.anchor_ranges@.len() == 0,
        scan.stats.bytes_unreadable == 0,
{
    let place = (ranges[i].address, ranges[i].size);
    only_the_heap_is_looked_at(ranges, place);
    assert(is_place(ranges[i], place));
    assert(scan.tally().found == scan.found@);
    assert(scan.tally().anchor_ranges == scan.anchor_ranges@);
    lemma_surveyed(ranges);
    assert(scan.tally().stats == scan.stats);
    assert(scan.quarry().needle == scan.needle);
    assert(scan.quarry().validator == scan.validator);
}

proof fn lemma_surveyed(ranges: Seq<MemoryRange>)
    ensures
        surveyed(ranges).bytes_unreadable == 0,
        surveyed(ranges).bytes_scanned == 0,
    decreases ranges.len(),
{
    if ranges.len() > 0 {
        lemma_surveyed(ranges.drop_last());
    }
}

/// So has a sweep for the table, which looks for the loader itself, as often as it
/// occurs.
pub proof fn a_sweep_for_the_table_has_no_end_but_the_last(
    scan: Scan,
    ranges: Seq<MemoryRange>,
    needle: u64,
    i: int,
)
    requires
        scan.fresh(ranges, needle),
        0 <= i < ranges.len(),
        ranges[i].flags & 1 == 1,
        ranges[i].flags & 2 == 2,
        ranges[i].flags & 4 == 0,
    ensures
        scan.ranges@.contains((ranges[i].address, ranges[i].size)),
        scan.range_index == 0,
        scan.offset == 0,
        scan.needle == needle,
        scan.validator is None,
        scan.limit is None,
        scan.found@.len() == 0,
{
    let place = (ranges[i].address, ranges[i].size);
    only_the_heap_is_looked_at(ranges, place);
    assert(is_place(ranges[i], place));
    assert(scan.tally().found == scan.found@);
    assert(scan.quarry().needle == scan.needle);
    assert(scan.quarry().limit == scan.limit);
}

} // verus!
