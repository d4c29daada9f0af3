//! What a scan proves.
//!
//! Everything it finds is there; and where it could read all there was to read,
//! what it did not find is not. The second is what lets an empty scan count as
//! evidence, and it holds of a memory that stands still meanwhile.
use vstd::prelude::*;

use crate::memory::{is_coherent, plus, u64_at, word_of, Memory};
use crate::scan::{
    chunk_words, chunked, compared, paged, places, sifted, sliced, words_at, Quarry, Scan, Tally,
    PAGE_WORDS,
};

verus! {

/// Whether an instance is at `at`: the word there is the one looked for, and
/// the object passes validation.
pub open spec fn is_instance<M: Memory>(memory: &M, quarry: Quarry, at: u64) -> bool {
    &&& u64_at(memory, at) == Some(quarry.needle)
    &&& quarry.validator matches Some(v) ==> v.admits(memory, at)
}

/// Whether all that was found is there.
pub open spec fn is_true<M: Memory>(memory: &M, quarry: Quarry, found: Seq<u64>) -> bool {
    forall|i: int| 0 <= i < found.len() ==> is_instance(memory, quarry, #[trigger] found[i])
}

/// Whether every instance at a word among the first `upto` bytes from `base` was
/// found.
pub open spec fn is_complete<M: Memory>(
    memory: &M,
    quarry: Quarry,
    found: Seq<u64>,
    base: u64,
    upto: int,
) -> bool {
    forall|k: int|
        0 <= k && 8 * k + 8 <= upto && is_instance(memory, quarry, (base + 8 * k) as u64)
            ==> #[trigger] found.contains((base + 8 * k) as u64)
}

/// Ranges that do not run past the end of the address space.
pub open spec fn are_ranges(ranges: Seq<(u64, u64)>) -> bool {
    forall|i: int|
        0 <= i < ranges.len() ==> (#[trigger] ranges[i]).0 + ranges[i].1 <= 0x1_0000_0000_0000_0000
}

/// Found at least as much, and lost no less.
spec fn grows(before: Tally, after: Tally) -> bool {
    &&& before.found.is_prefix_of(after.found)
    &&& before.stats.bytes_unreadable <= after.stats.bytes_unreadable
    &&& !after.stopped
}

proof fn lemma_prefix(a: Seq<u64>, b: Seq<u64>, x: u64)
    requires
        a.is_prefix_of(b),
        a.contains(x),
    ensures
        b.contains(x),
{
    let i = a.index_of(x);
    assert(b[i] == a[i]);
}

proof fn lemma_sifted<M: Memory>(
    memory: &M,
    quarry: Quarry,
    range: (u64, u64),
    candidates: Seq<u64>,
    tally: Tally,
)
    requires
        quarry.limit is None,
        !tally.stopped,
    ensures
        ({
            let after = sifted(memory, quarry, range, candidates, tally);
            &&& grows(tally, after)
            &&& after.stats == tally.stats
            &&& forall|i: int|
                0 <= i < candidates.len() && (quarry.validator matches Some(v) ==> v.admits(
                    memory,
                    candidates[i],
                )) ==> after.found.contains(#[trigger] candidates[i])
            &&& forall|i: int|
                tally.found.len() <= i < after.found.len() ==> candidates.contains(
                    #[trigger] after.found[i],
                ) && (quarry.validator matches Some(v) ==> v.admits(memory, after.found[i]))
        }),
    decreases candidates.len(),
{
    if candidates.len() > 0 {
        let candidate = candidates[0];
        let rest = candidates.drop_first();
        let kept = !(quarry.validator matches Some(v) && !v.admits(memory, candidate));
        let next = if !kept {
            Tally { rejected: tally.rejected.push(candidate), ..tally }
        } else {
            Tally {
                found: tally.found.push(candidate),
                found_ranges: tally.found_ranges.push(range),
                stopped: false,
                ..tally
            }
        };
        lemma_sifted(memory, quarry, range, rest, next);
        let after = sifted(memory, quarry, range, candidates, tally);
        assert(tally.found.is_prefix_of(next.found));
        assert(tally.found.is_prefix_of(after.found)) by {
            assert(after.found.take(tally.found.len() as int) =~= tally.found) by {
                assert forall|i: int| 0 <= i < tally.found.len() implies after.found[i]
                    == tally.found[i] by {
                    assert(next.found[i] == tally.found[i]);
                }
            }
        }
        assert forall|i: int|
            0 <= i < candidates.len() && (quarry.validator matches Some(v) ==> v.admits(
                memory,
                candidates[i],
            )) implies after.found.contains(#[trigger] candidates[i]) by {
            if i == 0 {
                assert(next.found.last() == candidate);
                assert(next.found.contains(candidate));
                lemma_prefix(next.found, after.found, candidate);
            } else {
                assert(rest[i - 1] == candidates[i]);
            }
        }
        assert forall|i: int| tally.found.len() <= i < after.found.len() implies candidates.contains(
            #[trigger] after.found[i],
        ) && (quarry.validator matches Some(v) ==> v.admits(memory, after.found[i])) by {
            if i < next.found.len() {
                assert(after.found[i] == next.found[i]);
                assert(after.found[i] == candidate);
                assert(candidates[0] == candidate);
            } else {
                assert(rest.contains(after.found[i]));
                let k = rest.index_of(after.found[i]);
                assert(candidates[k + 1] == after.found[i]);
            }
        }
    }
}

/// Whether `at` is where one of the words from the `i`th on is the one looked
/// for.
spec fn is_place(words: Seq<u64>, start: u64, needle: u64, i: int, at: u64) -> bool {
    exists|k: int| i <= k < words.len() && #[trigger] words[k] == needle && at == (start + 8 * k) as u64
}

proof fn lemma_places(words: Seq<u64>, start: u64, needle: u64, i: int)
    requires
        0 <= i,
        start + 8 * words.len() <= 0x1_0000_0000_0000_0000,
    ensures
        forall|k: int|
            i <= k < words.len() && words[k] == needle ==> places(
                words,
                start,
                needle,
                i,
            ).contains(#[trigger] ((start + 8 * k) as u64)),
        forall|j: int|
            0 <= j < places(words, start, needle, i).len() ==> is_place(
                words,
                start,
                needle,
                i,
                #[trigger] places(words, start, needle, i)[j],
            ),
    decreases words.len() - i,
{
    if i < words.len() {
        let rest = places(words, start, needle, i + 1);
        let all = places(words, start, needle, i);
        lemma_places(words, start, needle, i + 1);
        assert(plus(start, (8 * i) as u64) == start + 8 * i);
        if words[i] == needle {
            assert(all[0] == (start + 8 * i) as u64);
            assert forall|k: int| i <= k < words.len() && words[k] == needle implies all.contains(
                #[trigger] ((start + 8 * k) as u64),
            ) by {
                if k > i {
                    let x = (start + 8 * k) as u64;
                    assert(rest.contains(x));
                    let j = rest.index_of(x);
                    assert(all[j + 1] == x);
                }
            }
            assert forall|j: int| 0 <= j < all.len() implies is_place(
                words,
                start,
                needle,
                i,
                #[trigger] all[j],
            ) by {
                if j == 0 {
                    assert(words[i] == needle);
                } else {
                    assert(all[j] == rest[j - 1]);
                    assert(is_place(words, start, needle, i + 1, rest[j - 1]));
                }
            }
        } else {
            assert(all =~= rest);
            assert forall|j: int| 0 <= j < all.len() implies is_place(
                words,
                start,
                needle,
                i,
                #[trigger] all[j],
            ) by {
                assert(is_place(words, start, needle, i + 1, rest[j]));
            }
        }
    }
}

/// What comparing the words of a run finds is there, and all of it is found.
proof fn lemma_compared<M: Memory>(
    memory: &M,
    quarry: Quarry,
    range: (u64, u64),
    start: u64,
    n: int,
    tally: Tally,
)
    requires
        is_coherent(memory),
        quarry.limit is None,
        !tally.stopped,
        n > 0,
        start + 8 * n <= 0x1_0000_0000_0000_0000,
        words_at(memory, start, n) is Some,
        is_true(memory, quarry, tally.found),
    ensures
        ({
            let after = compared(
                memory,
                quarry,
                range,
                start,
                words_at(memory, start, n)->0,
                tally,
            );
            &&& grows(tally, after)
            &&& after.stats == tally.stats
            &&& is_true(memory, quarry, after.found)
            &&& is_complete(memory, quarry, after.found, start, 8 * n)
        }),
{
    let words = words_at(memory, start, n)->0;
    let bytes = memory.contents(start, (8 * n) as nat)->0;
    let anchored = if quarry.anchor matches Some(anchor) && words.contains(anchor) {
        Tally { anchor_ranges: crate::scan::noted(tally.anchor_ranges, range), ..tally }
    } else {
        tally
    };
    let candidates = places(words, start, quarry.needle, 0);
    let after = compared(memory, quarry, range, start, words, tally);
    lemma_places(words, start, quarry.needle, 0);
    lemma_sifted(memory, quarry, range, candidates, anchored);
    assert forall|k: int| 0 <= k < n implies u64_at(
        memory,
        #[trigger] ((start + 8 * k) as u64),
    ) == Some(words[k]) by {
        let at = (start + 8 * k) as u64;
        assert(memory.contents(at, 8) == Some(bytes.subrange(8 * k, 8 * k + 8)));
        assert(words[k] == word_of(bytes, k));
    }
    assert forall|i: int| 0 <= i < after.found.len() implies is_instance(
        memory,
        quarry,
        #[trigger] after.found[i],
    ) by {
        if i < tally.found.len() {
            assert(after.found[i] == tally.found[i]);
        } else {
            assert(candidates.contains(after.found[i]));
            let j = candidates.index_of(after.found[i]);
            assert(is_place(words, start, quarry.needle, 0, candidates[j]));
            let k = choose|k: int|
                0 <= k < words.len() && #[trigger] words[k] == quarry.needle && candidates[j] == (
                start + 8 * k) as u64;
            assert(u64_at(memory, (start + 8 * k) as u64) == Some(words[k]));
        }
    }
    assert forall|k: int|
        0 <= k && 8 * k + 8 <= 8 * n && is_instance(
            memory,
            quarry,
            (start + 8 * k) as u64,
        ) implies #[trigger] after.found.contains((start + 8 * k) as u64) by {
        let at = (start + 8 * k) as u64;
        assert(u64_at(memory, at) == Some(words[k]));
        assert(candidates.contains(at));
        let j = candidates.index_of(at);
        assert(after.found.contains(candidates[j]));
    }
}

/// The places of a run, seen from another start.
proof fn lemma_joined<M: Memory>(
    memory: &M,
    quarry: Quarry,
    before: Seq<u64>,
    found: Seq<u64>,
    base: u64,
    offset: int,
    n: int,
)
    requires
        0 <= offset,
        offset % 8 == 0,
        base + offset + 8 * n <= 0x1_0000_0000_0000_0000,
        n > 0,
        before.is_prefix_of(found),
        is_complete(memory, quarry, before, base, offset),
        is_complete(memory, quarry, found, (base + offset) as u64, 8 * n),
    ensures
        is_complete(memory, quarry, found, base, offset + 8 * n),
{
    assert forall|k: int|
        0 <= k && 8 * k + 8 <= offset + 8 * n && is_instance(
            memory,
            quarry,
            (base + 8 * k) as u64,
        ) implies #[trigger] found.contains((base + 8 * k) as u64) by {
        if 8 * k + 8 <= offset {
            assert(before.contains((base + 8 * k) as u64));
            lemma_prefix(before, found, (base + 8 * k) as u64);
        } else {
            let m = offset / 8;
            let j = k - m;
            assert(offset == 8 * m);
            assert((base + offset) as u64 + 8 * j == base + 8 * k);
            assert(found.contains(((base + offset) as u64 + 8 * j) as u64));
        }
    }
}

proof fn lemma_paged<M: Memory>(
    memory: &M,
    quarry: Quarry,
    range: (u64, u64),
    start: u64,
    n: int,
    done: int,
    tally: Tally,
)
    requires
        is_coherent(memory),
        quarry.limit is None,
        !tally.stopped,
        0 <= done <= n,
        start + 8 * n <= 0x1_0000_0000_0000_0000,
        is_true(memory, quarry, tally.found),
        tally.stats.bytes_unreadable == 0 ==> is_complete(
            memory,
            quarry,
            tally.found,
            start,
            8 * done,
        ),
    ensures
        ({
            let after = paged(memory, quarry, range, start, n, done, tally);
            &&& grows(tally, after)
            &&& is_true(memory, quarry, after.found)
            &&& after.stats.bytes_unreadable == 0 ==> is_complete(
                memory,
                quarry,
                after.found,
                start,
                8 * n,
            )
        }),
    decreases n - done,
{
    if done < n {
        let size = if n - done < PAGE_WORDS {
            n - done
        } else {
            PAGE_WORDS as int
        };
        let at = plus(start, (8 * done) as u64);
        assert(at == start + 8 * done);
        let next = match words_at(memory, at, size) {
            Some(words) => compared(
                memory,
                quarry,
                range,
                at,
                words,
                Tally { stats: tally.stats.read(8 * size), ..tally },
            ),
            None => Tally { stats: tally.stats.lost(8 * size), ..tally },
        };
        match words_at(memory, at, size) {
            Some(words) => {
                lemma_compared(
                    memory,
                    quarry,
                    range,
                    at,
                    size,
                    Tally { stats: tally.stats.read(8 * size), ..tally },
                );
                if tally.stats.bytes_unreadable == 0 {
                    lemma_joined(
                        memory,
                        quarry,
                        tally.found,
                        next.found,
                        start,
                        8 * done,
                        size,
                    );
                }
            },
            None => {},
        }
        lemma_paged(memory, quarry, range, start, n, done + size, next);
    }
}

proof fn lemma_chunked<M: Memory>(
    memory: &M,
    quarry: Quarry,
    range: (u64, u64),
    start: u64,
    n: int,
    tally: Tally,
)
    requires
        is_coherent(memory),
        quarry.limit is None,
        !tally.stopped,
        n > 0,
        start + 8 * n <= 0x1_0000_0000_0000_0000,
        is_true(memory, quarry, tally.found),
    ensures
        ({
            let after = chunked(memory, quarry, range, start, n, tally);
            &&& grows(tally, after)
            &&& is_true(memory, quarry, after.found)
            &&& after.stats.bytes_unreadable == 0 ==> is_complete(
                memory,
                quarry,
                after.found,
                start,
                8 * n,
            )
        }),
{
    match words_at(memory, start, n) {
        Some(_) => lemma_compared(
            memory,
            quarry,
            range,
            start,
            n,
            Tally { stats: tally.stats.read(8 * n), ..tally },
        ),
        None => lemma_paged(
            memory,
            quarry,
            range,
            start,
            n,
            0,
            Tally { stats: tally.stats.failed(), ..tally },
        ),
    }
}

/// Whether everything in front of a place in the ranges has been found.
pub open spec fn is_swept<M: Memory>(
    memory: &M,
    quarry: Quarry,
    ranges: Seq<(u64, u64)>,
    range_index: int,
    offset: u64,
    found: Seq<u64>,
) -> bool {
    &&& forall|r: int|
        0 <= r < range_index && r < ranges.len() ==> is_complete(
            memory,
            quarry,
            found,
            (#[trigger] ranges[r]).0,
            ranges[r].1 as int,
        )
    &&& range_index < ranges.len() ==> is_complete(
        memory,
        quarry,
        found,
        ranges[range_index].0,
        offset as int,
    )
}

proof fn lemma_still_swept<M: Memory>(
    memory: &M,
    quarry: Quarry,
    ranges: Seq<(u64, u64)>,
    range_index: int,
    before: Seq<u64>,
    after: Seq<u64>,
)
    requires
        before.is_prefix_of(after),
        forall|r: int|
            0 <= r < range_index && r < ranges.len() ==> is_complete(
                memory,
                quarry,
                before,
                (#[trigger] ranges[r]).0,
                ranges[r].1 as int,
            ),
    ensures
        forall|r: int|
            0 <= r < range_index && r < ranges.len() ==> is_complete(
                memory,
                quarry,
                after,
                (#[trigger] ranges[r]).0,
                ranges[r].1 as int,
            ),
{
    assert forall|r: int| 0 <= r < range_index && r < ranges.len() implies is_complete(
        memory,
        quarry,
        after,
        (#[trigger] ranges[r]).0,
        ranges[r].1 as int,
    ) by {
        let base = ranges[r].0;
        let size = ranges[r].1;
        assert(is_complete(memory, quarry, before, base, size as int));
        assert forall|k: int|
            0 <= k && 8 * k + 8 <= size && is_instance(
                memory,
                quarry,
                (base + 8 * k) as u64,
            ) implies #[trigger] after.contains((base + 8 * k) as u64) by {
            assert(before.contains((base + 8 * k) as u64));
            lemma_prefix(before, after, (base + 8 * k) as u64);
        }
    }
}

proof fn lemma_sliced<M: Memory>(
    memory: &M,
    quarry: Quarry,
    ranges: Seq<(u64, u64)>,
    range_index: int,
    offset: u64,
    tally: Tally,
    left: int,
)
    requires
        is_coherent(memory),
        quarry.limit is None,
        !tally.stopped,
        are_ranges(ranges),
        0 <= range_index <= ranges.len(),
        range_index < ranges.len() ==> offset <= ranges[range_index].1,
        offset % 8 == 0,
        is_true(memory, quarry, tally.found),
        tally.stats.bytes_unreadable == 0 ==> is_swept(
            memory,
            quarry,
            ranges,
            range_index,
            offset,
            tally.found,
        ),
    ensures
        ({
            let (index, at, after, done) = sliced(
                memory,
                quarry,
                ranges,
                range_index,
                offset,
                tally,
                left,
            );
            &&& grows(tally, after)
            &&& at % 8 == 0
            &&& is_true(memory, quarry, after.found)
            &&& done ==> index >= ranges.len()
            &&& after.stats.bytes_unreadable == 0 ==> is_swept(
                memory,
                quarry,
                ranges,
                index,
                at,
                after.found,
            )
        }),
    decreases ranges.len() - range_index, ranges[range_index].1 - offset,
{
    if left > 0 && range_index < ranges.len() {
        let range = ranges[range_index];
        let n = chunk_words(range.1, offset);
        if n == 0 {
            if tally.stats.bytes_unreadable == 0 {
                assert(range.1 - offset < 8);
                assert forall|k: int|
                    0 <= k && 8 * k + 8 <= range.1 && is_instance(
                        memory,
                        quarry,
                        (range.0 + 8 * k) as u64,
                    ) implies #[trigger] tally.found.contains((range.0 + 8 * k) as u64) by {
                    assert(8 * k + 8 <= offset);
                }
            }
            lemma_sliced(memory, quarry, ranges, range_index + 1, 0, tally, left);
        } else {
            let start = plus(range.0, offset);
            assert(start == range.0 + offset);
            let next = chunked(memory, quarry, range, start, n, tally);
            let after = (offset + 8 * n) as u64;
            lemma_chunked(memory, quarry, range, start, n, tally);
            if next.stats.bytes_unreadable == 0 {
                lemma_still_swept(
                    memory,
                    quarry,
                    ranges,
                    range_index,
                    tally.found,
                    next.found,
                );
                lemma_joined(
                    memory,
                    quarry,
                    tally.found,
                    next.found,
                    range.0,
                    offset as int,
                    n,
                );
            }
            lemma_sliced(memory, quarry, ranges, range_index, after, next, left - 8 * n);
            let last = sliced(memory, quarry, ranges, range_index, after, next, left - 8 * n).2;
            assert(tally.found.is_prefix_of(last.found)) by {
                assert(last.found.take(tally.found.len() as int) =~= tally.found) by {
                    assert forall|i: int| 0 <= i < tally.found.len() implies last.found[i]
                        == tally.found[i] by {
                        assert(next.found[i] == tally.found[i]);
                    }
                }
            }
        }
    }
}

/// Scans, each a slice on from the one before, until one finishes.
pub open spec fn is_run<M: Memory>(memory: &M, scans: Seq<Scan>, budget: int) -> bool {
    &&& scans.len() > 0
    &&& forall|i: int, j: int|
        0 <= i && j == i + 1 && j < scans.len() ==> (#[trigger] scans[i]).stepped(
            memory,
            budget,
            #[trigger] scans[j],
            j == scans.len() - 1,
        )
}

/// A scan that has not read anything yet.
pub open spec fn is_unread(scan: Scan) -> bool {
    &&& scan.wf()
    &&& scan.range_index == 0
    &&& scan.offset == 0
    &&& scan.found@.len() == 0
    &&& scan.rejected@.len() == 0
    &&& scan.stats.bytes_unreadable == 0
}

spec fn is_under_way<M: Memory>(memory: &M, scan: Scan) -> bool {
    &&& scan.range_index <= scan.ranges@.len()
    &&& scan.range_index < scan.ranges@.len() ==> scan.offset
        <= scan.ranges@[scan.range_index as int].1
    &&& scan.offset % 8 == 0
    &&& is_true(memory, scan.quarry(), scan.found@)
    &&& scan.stats.bytes_unreadable == 0 ==> is_swept(
        memory,
        scan.quarry(),
        scan.ranges@,
        scan.range_index as int,
        scan.offset,
        scan.found@,
    )
}

proof fn lemma_stepped<M: Memory>(memory: &M, scan: Scan, budget: int, after: Scan, done: bool)
    requires
        is_coherent(memory),
        scan.limit is None,
        are_ranges(scan.ranges@),
        is_under_way(memory, scan),
        scan.stepped(memory, budget, after, done),
        after.wf(),
    ensures
        is_under_way(memory, after),
        after.quarry() == scan.quarry(),
        after.ranges == scan.ranges,
        done ==> after.range_index >= after.ranges@.len(),
{
    let begun = Tally { stats: scan.stats.sliced(), ..scan.tally() };
    lemma_sliced(
        memory,
        scan.quarry(),
        scan.ranges@,
        scan.range_index as int,
        scan.offset,
        begun,
        budget,
    );
}

proof fn lemma_run<M: Memory>(memory: &M, scans: Seq<Scan>, budget: int, n: int)
    requires
        is_coherent(memory),
        is_run(memory, scans, budget),
        is_unread(scans[0]),
        scans[0].limit is None,
        are_ranges(scans[0].ranges@),
        forall|i: int| 0 <= i < scans.len() ==> (#[trigger] scans[i]).wf(),
        0 <= n < scans.len(),
    ensures
        is_under_way(memory, scans[n]),
        scans[n].quarry() == scans[0].quarry(),
        scans[n].ranges == scans[0].ranges,
        0 < n && n == scans.len() - 1 ==> scans[n].range_index >= scans[n].ranges@.len(),
    decreases n,
{
    if n > 0 {
        lemma_run(memory, scans, budget, n - 1);
        assert(scans[n - 1].stepped(memory, budget, scans[n], n == scans.len() - 1));
        assert(scans[n].wf());
        lemma_stepped(memory, scans[n - 1], budget, scans[n], n == scans.len() - 1);
    }
}

/// Everything a scan finds is there: the word looked for, at the start of an
/// object that passes validation.
pub proof fn what_a_scan_finds_is_there<M: Memory>(memory: &M, scans: Seq<Scan>, budget: int, at: u64)
    requires
        is_coherent(memory),
        is_run(memory, scans, budget),
        is_unread(scans[0]),
        scans[0].limit is None,
        are_ranges(scans[0].ranges@),
        forall|i: int| 0 <= i < scans.len() ==> (#[trigger] scans[i]).wf(),
        scans.last().found@.contains(at),
    ensures
        is_instance(memory, scans[0].quarry(), at),
{
    lemma_run(memory, scans, budget, scans.len() - 1);
    let i = scans.last().found@.index_of(at);
    assert(scans.last().found@[i] == at);
}

/// A finished scan that could read everything found every instance in the ranges
/// it went through: one that came up empty shows that there is none.
pub proof fn a_conclusive_scan_misses_nothing<M: Memory>(
    memory: &M,
    scans: Seq<Scan>,
    budget: int,
    range: (u64, u64),
    k: int,
)
    requires
        is_coherent(memory),
        is_run(memory, scans, budget),
        scans.len() > 1,
        is_unread(scans[0]),
        scans[0].limit is None,
        are_ranges(scans[0].ranges@),
        forall|i: int| 0 <= i < scans.len() ==> (#[trigger] scans[i]).wf(),
        scans.last().stats.bytes_unreadable == 0,
        scans[0].ranges@.contains(range),
        0 <= k,
        8 * k + 8 <= range.1,
        is_instance(memory, scans[0].quarry(), (range.0 + 8 * k) as u64),
    ensures
        scans.last().found@.contains((range.0 + 8 * k) as u64),
{
    lemma_run(memory, scans, budget, scans.len() - 1);
    let last = scans.last();
    let r = last.ranges@.index_of(range);
    assert(is_complete(
        memory,
        last.quarry(),
        last.found@,
        last.ranges@[r].0,
        last.ranges@[r].1 as int,
    ));
}

} // verus!
