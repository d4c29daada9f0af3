//! What a finished scan holds, and in what order.
//!
//! It went through the words of its ranges from the front, and sorted those equal
//! to the one looked for into the found and the rejected, up to its limit. This
//! holds of a memory that stands still meanwhile, whatever of it can be read.
use vstd::prelude::*;

use crate::memory::{is_coherent, plus, u64_at, word_of, Memory};
use crate::scan::absence::{are_ranges, is_run, is_unread};
use crate::scan::{
    chunk_words, chunked, compared, noted, paged, places, sifted, sliced, words_at, Quarry, Scan,
    Tally, CHUNK_WORDS, PAGE_WORDS,
};

verus! {

/// Whether the page that the `k`th word of a range is in can be read.
pub open spec fn is_legible<M: Memory>(memory: &M, range: (u64, u64), k: int) -> bool {
    let first = k - k % PAGE_WORDS as int;
    let rest = range.1 / 8 - first;
    words_at(
        memory,
        (range.0 + 8 * first) as u64,
        if rest < PAGE_WORDS {
            rest
        } else {
            PAGE_WORDS as int
        },
    ) is Some
}

/// Where, among the first `n` words of a range, the legible ones equal to
/// `needle` are, from the front.
pub open spec fn matched<M: Memory>(memory: &M, needle: u64, range: (u64, u64), n: int) -> Seq<u64>
    decreases n,
{
    if n <= 0 {
        Seq::empty()
    } else {
        let rest = matched(memory, needle, range, n - 1);
        let at = (range.0 + 8 * (n - 1)) as u64;
        if is_legible(memory, range, n - 1) && u64_at(memory, at) == Some(needle) {
            rest.push(at)
        } else {
            rest
        }
    }
}

/// Those of the first `n` ranges, one range after the other.
pub open spec fn all_matched<M: Memory>(
    memory: &M,
    needle: u64,
    ranges: Seq<(u64, u64)>,
    n: int,
) -> Seq<u64>
    decreases n,
{
    if n <= 0 {
        Seq::empty()
    } else {
        all_matched(memory, needle, ranges, n - 1) + matched(
            memory,
            needle,
            ranges[n - 1],
            (ranges[n - 1].1 / 8) as int,
        )
    }
}

/// Whether an address passes validation, where there is any.
pub open spec fn is_admitted<M: Memory>(memory: &M, quarry: Quarry, at: u64) -> bool {
    quarry.validator matches Some(v) ==> v.admits(memory, at)
}

/// Those that pass validation, or those that do not, in the order they are in.
pub open spec fn chosen<M: Memory>(
    memory: &M,
    quarry: Quarry,
    all: Seq<u64>,
    admitted: bool,
) -> Seq<u64>
    decreases all.len(),
{
    if all.len() == 0 {
        Seq::empty()
    } else {
        let rest = chosen(memory, quarry, all.drop_last(), admitted);
        if is_admitted(memory, quarry, all.last()) == admitted {
            rest.push(all.last())
        } else {
            rest
        }
    }
}

/// Whether `all` holds as many that pass as the scan is limited to.
pub open spec fn is_full<M: Memory>(memory: &M, quarry: Quarry, all: Seq<u64>) -> bool {
    quarry.limit matches Some(n) && chosen(memory, quarry, all, true).len() >= n
}

/// Those that a scan comes to before its limit stops it.
pub open spec fn reached<M: Memory>(memory: &M, quarry: Quarry, all: Seq<u64>) -> Seq<u64>
    decreases all.len(),
{
    if all.len() == 0 {
        Seq::empty()
    } else {
        let rest = reached(memory, quarry, all.drop_last());
        if is_full(memory, quarry, rest) {
            rest
        } else {
            rest.push(all.last())
        }
    }
}

/// Whether a tally is what going through `all` leads to.
spec fn follows<M: Memory>(memory: &M, quarry: Quarry, all: Seq<u64>, tally: Tally) -> bool {
    let come_to = reached(memory, quarry, all);
    &&& tally.found == chosen(memory, quarry, come_to, true)
    &&& tally.rejected == chosen(memory, quarry, come_to, false)
    &&& tally.stopped == is_full(memory, quarry, come_to)
}

/// Nothing more is come to once the limit is reached.
proof fn lemma_full<M: Memory>(memory: &M, quarry: Quarry, all: Seq<u64>, more: Seq<u64>)
    requires
        is_full(memory, quarry, reached(memory, quarry, all)),
    ensures
        reached(memory, quarry, all + more) == reached(memory, quarry, all),
    decreases more.len(),
{
    if more.len() == 0 {
        assert(all + more =~= all);
    } else {
        lemma_full(memory, quarry, all, more.drop_last());
        assert((all + more).drop_last() =~= all + more.drop_last());
    }
}

proof fn lemma_follows<M: Memory>(
    memory: &M,
    quarry: Quarry,
    range: (u64, u64),
    all: Seq<u64>,
    candidates: Seq<u64>,
    tally: Tally,
)
    requires
        follows(memory, quarry, all, tally),
    ensures
        follows(
            memory,
            quarry,
            all + candidates,
            sifted(memory, quarry, range, candidates, tally),
        ),
    decreases candidates.len(),
{
    if tally.stopped {
        lemma_full(memory, quarry, all, candidates);
    } else if candidates.len() == 0 {
        assert(all + candidates =~= all);
    } else {
        let candidate = candidates[0];
        let next = if quarry.validator matches Some(v) && !v.admits(memory, candidate) {
            Tally { rejected: tally.rejected.push(candidate), ..tally }
        } else {
            Tally {
                found: tally.found.push(candidate),
                found_ranges: tally.found_ranges.push(range),
                stopped: quarry.limit matches Some(n) && tally.found.len() + 1 >= n,
                ..tally
            }
        };
        let come_to = reached(memory, quarry, all);
        assert(all.push(candidate).drop_last() =~= all);
        assert(reached(memory, quarry, all.push(candidate)) == come_to.push(candidate));
        assert(come_to.push(candidate).drop_last() =~= come_to);
        assert(follows(memory, quarry, all.push(candidate), next));
        lemma_follows(memory, quarry, range, all.push(candidate), candidates.drop_first(), next);
        assert(all.push(candidate) + candidates.drop_first() =~= all + candidates);
    }
}

proof fn lemma_matched_grows<M: Memory>(
    memory: &M,
    needle: u64,
    range: (u64, u64),
    a: int,
    b: int,
) -> (more: Seq<u64>)
    requires
        0 <= a <= b,
    ensures
        matched(memory, needle, range, b) == matched(memory, needle, range, a) + more,
        (forall|k: int| a <= k < b ==> !is_legible(memory, range, k)) ==> more.len() == 0,
    decreases b - a,
{
    if a == b {
        let none = Seq::<u64>::empty();
        assert(matched(memory, needle, range, a) + none =~= matched(memory, needle, range, a));
        none
    } else {
        let less = lemma_matched_grows(memory, needle, range, a, b - 1);
        let at = (range.0 + 8 * (b - 1)) as u64;
        let before = matched(memory, needle, range, a);
        assert((before + less).push(at) =~= before + less.push(at));
        if is_legible(memory, range, b - 1) && u64_at(memory, at) == Some(needle) {
            less.push(at)
        } else {
            less
        }
    }
}

/// The matches among words that were read are those that were looked up one by
/// one.
proof fn lemma_places<M: Memory>(
    memory: &M,
    needle: u64,
    range: (u64, u64),
    first: int,
    words: Seq<u64>,
    i: int,
)
    requires
        0 <= first,
        0 <= i <= words.len(),
        range.0 + 8 * (first + words.len()) <= 0x1_0000_0000_0000_0000,
        forall|k: int| first <= k < first + words.len() ==> is_legible(memory, range, k),
        forall|k: int|
            0 <= k < words.len() ==> u64_at(memory, (range.0 + 8 * (first + k)) as u64) == Some(
                #[trigger] words[k],
            ),
    ensures
        matched(memory, needle, range, first + words.len()) == matched(
            memory,
            needle,
            range,
            first + i,
        ) + places(words, (range.0 + 8 * first) as u64, needle, i),
    decreases words.len() - i,
{
    let start = (range.0 + 8 * first) as u64;
    let before = matched(memory, needle, range, first + i);
    if i < words.len() {
        lemma_places(memory, needle, range, first, words, i + 1);
        assert(is_legible(memory, range, first + i));
        let at = (range.0 + 8 * (first + i)) as u64;
        assert(plus(start, (8 * i) as u64) == at);
        assert(u64_at(memory, at) == Some(words[i]));
        let rest = places(words, start, needle, i + 1);
        assert(before.push(at) + rest =~= before + (seq![at] + rest));
    } else {
        assert(before + places(words, start, needle, i) =~= before);
    }
}

proof fn lemma_compared<M: Memory>(
    memory: &M,
    quarry: Quarry,
    range: (u64, u64),
    before: Seq<u64>,
    first: int,
    n: int,
    tally: Tally,
)
    requires
        is_coherent(memory),
        0 <= first,
        n > 0,
        range.0 + 8 * (first + n) <= 0x1_0000_0000_0000_0000,
        words_at(memory, (range.0 + 8 * first) as u64, n) is Some,
        forall|k: int| first <= k < first + n ==> is_legible(memory, range, k),
        follows(
            memory,
            quarry,
            before + matched(memory, quarry.needle, range, first),
            tally,
        ),
    ensures
        follows(
            memory,
            quarry,
            before + matched(memory, quarry.needle, range, first + n),
            compared(
                memory,
                quarry,
                range,
                (range.0 + 8 * first) as u64,
                words_at(memory, (range.0 + 8 * first) as u64, n)->0,
                tally,
            ),
        ),
{
    let start = (range.0 + 8 * first) as u64;
    let words = words_at(memory, start, n)->0;
    let bytes = memory.contents(start, (8 * n) as nat)->0;
    assert forall|k: int| 0 <= k < words.len() implies u64_at(
        memory,
        (range.0 + 8 * (first + k)) as u64,
    ) == Some(#[trigger] words[k]) by {
        let at = (start + 8 * k) as u64;
        assert(at == (range.0 + 8 * (first + k)) as u64);
        assert(memory.contents(at, 8) == Some(bytes.subrange(8 * k, 8 * k + 8)));
        assert(words[k] == word_of(bytes, k));
    }
    lemma_places(memory, quarry.needle, range, first, words, 0);
    let anchored = if quarry.anchor matches Some(anchor) && words.contains(anchor) {
        Tally { anchor_ranges: noted(tally.anchor_ranges, range), ..tally }
    } else {
        tally
    };
    let candidates = places(words, start, quarry.needle, 0);
    let so_far = before + matched(memory, quarry.needle, range, first);
    lemma_follows(memory, quarry, range, so_far, candidates, anchored);
    assert(so_far + candidates =~= before + matched(memory, quarry.needle, range, first + n));
}

/// Whether `n` words from the `first` on are a chunk of a range.
spec fn is_chunk(range: (u64, u64), first: int, n: int) -> bool {
    &&& 0 <= first
    &&& first % PAGE_WORDS as int == 0
    &&& n > 0
    &&& range.0 + range.1 <= 0x1_0000_0000_0000_0000
    &&& first + n <= range.1 / 8
    &&& n == CHUNK_WORDS || first + n == range.1 / 8
}

/// The page of a chunk that begins `done` words into it is legible where it can
/// be read.
proof fn lemma_page<M: Memory>(memory: &M, range: (u64, u64), first: int, n: int, done: int, size: int)
    requires
        is_chunk(range, first, n),
        0 <= done < n,
        done % PAGE_WORDS as int == 0,
        size == if n - done < PAGE_WORDS {
            n - done
        } else {
            PAGE_WORDS as int
        },
    ensures
        done + size == n || (done + size) % PAGE_WORDS as int == 0,
        forall|k: int|
            first + done <= k < first + done + size ==> is_legible(memory, range, k) == (words_at(
                memory,
                (range.0 + 8 * (first + done)) as u64,
                size,
            ) is Some),
{
    let page = first + done;
    assert(page % PAGE_WORDS as int == 0);
    assert(n == CHUNK_WORDS ==> (n - done) % PAGE_WORDS as int == 0);
    assert forall|k: int| page <= k < page + size implies is_legible(memory, range, k) == (words_at(
        memory,
        (range.0 + 8 * page) as u64,
        size,
    ) is Some) by {
        assert(k - k % PAGE_WORDS as int == page);
    }
}

#[verifier::spinoff_prover]
proof fn lemma_paged<M: Memory>(
    memory: &M,
    quarry: Quarry,
    range: (u64, u64),
    before: Seq<u64>,
    first: int,
    n: int,
    done: int,
    tally: Tally,
)
    requires
        is_coherent(memory),
        is_chunk(range, first, n),
        0 <= done <= n,
        done == n || done % PAGE_WORDS as int == 0,
        follows(
            memory,
            quarry,
            before + matched(memory, quarry.needle, range, first + done),
            tally,
        ),
    ensures
        follows(
            memory,
            quarry,
            before + matched(memory, quarry.needle, range, first + n),
            paged(memory, quarry, range, (range.0 + 8 * first) as u64, n, done, tally),
        ),
    decreases n - done,
{
    let start = (range.0 + 8 * first) as u64;
    let so_far = matched(memory, quarry.needle, range, first + done);
    if tally.stopped {
        let more = lemma_matched_grows(memory, quarry.needle, range, first + done, first + n);
        lemma_full(memory, quarry, before + so_far, more);
        assert(before + so_far + more =~= before + (so_far + more));
    } else if done < n {
        let size = if n - done < PAGE_WORDS {
            n - done
        } else {
            PAGE_WORDS as int
        };
        let at = plus(start, (8 * done) as u64);
        let page = first + done;
        assert(at == (range.0 + 8 * page) as u64);
        lemma_page(memory, range, first, n, done, size);
        match words_at(memory, at, size) {
            Some(words) => {
                let read = Tally { stats: tally.stats.read(8 * size), ..tally };
                lemma_compared(memory, quarry, range, before, page, size, read);
                let next = compared(memory, quarry, range, at, words, read);
                lemma_paged(memory, quarry, range, before, first, n, done + size, next);
            },
            None => {
                let more = lemma_matched_grows(
                    memory,
                    quarry.needle,
                    range,
                    page,
                    page + size,
                );
                assert(so_far + more =~= so_far);
                let next = Tally { stats: tally.stats.lost(8 * size), ..tally };
                lemma_paged(memory, quarry, range, before, first, n, done + size, next);
            },
        }
    }
}

/// In a chunk that reads as a whole every page does.
proof fn lemma_legible<M: Memory>(memory: &M, range: (u64, u64), first: int, n: int, k: int)
    requires
        is_coherent(memory),
        is_chunk(range, first, n),
        words_at(memory, (range.0 + 8 * first) as u64, n) is Some,
        first <= k < first + n,
    ensures
        is_legible(memory, range, k),
{
    let start = (range.0 + 8 * first) as u64;
    let page = k - k % PAGE_WORDS as int;
    let rest = range.1 / 8 - page;
    let size = if rest < PAGE_WORDS {
        rest
    } else {
        PAGE_WORDS as int
    };
    let at = (range.0 + 8 * page) as u64;
    assert(first <= page && page + size <= first + n);
    assert(memory.contents(start, (8 * n) as nat) is Some);
    assert(memory.contents(at, (8 * size) as nat) is Some);
}

proof fn lemma_chunked<M: Memory>(
    memory: &M,
    quarry: Quarry,
    range: (u64, u64),
    before: Seq<u64>,
    first: int,
    n: int,
    tally: Tally,
)
    requires
        is_coherent(memory),
        is_chunk(range, first, n),
        follows(
            memory,
            quarry,
            before + matched(memory, quarry.needle, range, first),
            tally,
        ),
    ensures
        follows(
            memory,
            quarry,
            before + matched(memory, quarry.needle, range, first + n),
            chunked(memory, quarry, range, (range.0 + 8 * first) as u64, n, tally),
        ),
{
    let start = (range.0 + 8 * first) as u64;
    match words_at(memory, start, n) {
        Some(_) => {
            assert forall|k: int| first <= k < first + n implies is_legible(memory, range, k) by {
                lemma_legible(memory, range, first, n, k);
            }
            let read = Tally { stats: tally.stats.read(8 * n), ..tally };
            lemma_compared(memory, quarry, range, before, first, n, read);
        },
        None => {
            let failed = Tally { stats: tally.stats.failed(), ..tally };
            lemma_paged(memory, quarry, range, before, first, n, 0, failed);
        },
    }
}

/// The matches in front of a place in the ranges.
spec fn passed<M: Memory>(
    memory: &M,
    needle: u64,
    ranges: Seq<(u64, u64)>,
    index: int,
    offset: u64,
) -> Seq<u64> {
    if index < ranges.len() {
        all_matched(memory, needle, ranges, index) + matched(
            memory,
            needle,
            ranges[index],
            (offset / 8) as int,
        )
    } else {
        all_matched(memory, needle, ranges, ranges.len() as int)
    }
}

/// Whether a scan at this place has gathered what it passed.
spec fn is_at<M: Memory>(
    memory: &M,
    quarry: Quarry,
    ranges: Seq<(u64, u64)>,
    index: int,
    offset: u64,
    tally: Tally,
) -> bool {
    &&& 0 <= index <= ranges.len()
    &&& index < ranges.len() ==> {
        &&& offset <= ranges[index].1
        &&& offset % 8 == 0
        &&& offset / 8 == ranges[index].1 / 8 || (offset / 8) % PAGE_WORDS as u64 == 0
    }
    &&& follows(memory, quarry, passed(memory, quarry.needle, ranges, index, offset), tally)
}

/// Whether a tally is what going through all of the ranges leads to.
spec fn is_whole<M: Memory>(
    memory: &M,
    quarry: Quarry,
    ranges: Seq<(u64, u64)>,
    tally: Tally,
) -> bool {
    let come_to = reached(
        memory,
        quarry,
        all_matched(memory, quarry.needle, ranges, ranges.len() as int),
    );
    &&& tally.found == chosen(memory, quarry, come_to, true)
    &&& tally.rejected == chosen(memory, quarry, come_to, false)
}

proof fn lemma_all_grows<M: Memory>(
    memory: &M,
    needle: u64,
    ranges: Seq<(u64, u64)>,
    a: int,
    b: int,
) -> (more: Seq<u64>)
    requires
        0 <= a <= b,
    ensures
        all_matched(memory, needle, ranges, b) == all_matched(memory, needle, ranges, a) + more,
    decreases b - a,
{
    let before = all_matched(memory, needle, ranges, a);
    if a == b {
        let none = Seq::<u64>::empty();
        assert(before + none =~= before);
        none
    } else {
        let less = lemma_all_grows(memory, needle, ranges, a, b - 1);
        let last = matched(memory, needle, ranges[b - 1], (ranges[b - 1].1 / 8) as int);
        assert(before + less + last =~= before + (less + last));
        less + last
    }
}

/// A scan that its limit stopped has gathered all that it was to.
proof fn lemma_stopped<M: Memory>(
    memory: &M,
    quarry: Quarry,
    ranges: Seq<(u64, u64)>,
    index: int,
    n: int,
    tally: Tally,
)
    requires
        0 <= index < ranges.len(),
        0 <= n <= ranges[index].1 / 8,
        follows(
            memory,
            quarry,
            all_matched(memory, quarry.needle, ranges, index) + matched(
                memory,
                quarry.needle,
                ranges[index],
                n,
            ),
            tally,
        ),
        tally.stopped,
    ensures
        is_whole(memory, quarry, ranges, tally),
{
    let needle = quarry.needle;
    let before = all_matched(memory, needle, ranges, index);
    let here = matched(memory, needle, ranges[index], n);
    let more = lemma_matched_grows(memory, needle, ranges[index], n, (ranges[index].1 / 8) as int);
    let rest = lemma_all_grows(memory, needle, ranges, index + 1, ranges.len() as int);
    lemma_full(memory, quarry, before + here, more + rest);
    assert(before + here + (more + rest) =~= before + (here + more) + rest);
}

proof fn lemma_sliced<M: Memory>(
    memory: &M,
    quarry: Quarry,
    ranges: Seq<(u64, u64)>,
    index: int,
    offset: u64,
    tally: Tally,
    left: int,
)
    requires
        is_coherent(memory),
        are_ranges(ranges),
        quarry.limit != Some(0usize),
        !tally.stopped,
        is_at(memory, quarry, ranges, index, offset, tally),
    ensures
        ({
            let (next, at, after, done) = sliced(
                memory,
                quarry,
                ranges,
                index,
                offset,
                tally,
                left,
            );
            if done {
                is_whole(memory, quarry, ranges, after)
            } else {
                !after.stopped && is_at(memory, quarry, ranges, next, at, after)
            }
        }),
    decreases ranges.len() - index, ranges[index].1 - offset,
{
    if left > 0 && index < ranges.len() {
        let range = ranges[index];
        let n = chunk_words(range.1, offset);
        let before = all_matched(memory, quarry.needle, ranges, index);
        if n == 0 {
            assert(offset / 8 == range.1 / 8);
            assert(matched(memory, quarry.needle, range, 0) =~= Seq::empty());
            assert(passed(memory, quarry.needle, ranges, index + 1, 0) =~= passed(
                memory,
                quarry.needle,
                ranges,
                index,
                offset,
            ));
            lemma_sliced(memory, quarry, ranges, index + 1, 0, tally, left);
        } else {
            let first = (offset / 8) as int;
            let start = plus(range.0, offset);
            assert(offset == 8 * first);
            assert(start == (range.0 + 8 * first) as u64);
            lemma_chunked(memory, quarry, range, before, first, n, tally);
            let next = chunked(memory, quarry, range, start, n, tally);
            let after = (offset + 8 * n) as u64;
            assert(after / 8 == first + n);
            if next.stopped {
                lemma_stopped(memory, quarry, ranges, index, first + n, next);
            } else {
                lemma_sliced(memory, quarry, ranges, index, after, next, left - 8 * n);
            }
        }
    }
}

proof fn lemma_run<M: Memory>(memory: &M, scans: Seq<Scan>, budget: int, n: int)
    requires
        is_coherent(memory),
        is_run(memory, scans, budget),
        is_unread(scans[0]),
        scans[0].limit != Some(0usize),
        are_ranges(scans[0].ranges@),
        0 <= n < scans.len(),
    ensures
        scans[n].quarry() == scans[0].quarry(),
        scans[n].ranges == scans[0].ranges,
        0 < n && n == scans.len() - 1 ==> is_whole(
            memory,
            scans[0].quarry(),
            scans[0].ranges@,
            scans[n].tally(),
        ),
        n == 0 || n < scans.len() - 1 ==> is_at(
            memory,
            scans[0].quarry(),
            scans[0].ranges@,
            scans[n].range_index as int,
            scans[n].offset,
            scans[n].tally(),
        ),
    decreases n,
{
    let quarry = scans[0].quarry();
    let ranges = scans[0].ranges@;
    if n == 0 {
        assert(passed(memory, quarry.needle, ranges, 0, 0) =~= Seq::empty());
        assert(scans[0].found@ =~= Seq::empty());
        assert(scans[0].rejected@ =~= Seq::empty());
    } else {
        lemma_run(memory, scans, budget, n - 1);
        let last = scans[n - 1];
        assert(last.stepped(memory, budget, scans[n], n == scans.len() - 1));
        let begun = Tally { stats: last.stats.sliced(), ..last.tally() };
        lemma_sliced(
            memory,
            quarry,
            ranges,
            last.range_index as int,
            last.offset,
            begun,
            budget,
        );
    }
}

/// A finished scan found, of the words equal to the one looked for that it could
/// read, those that pass validation, and rejected those that do not: each where
/// it stands, from the front of each range and one range after the other, and no
/// further than to the one that its limit asks for.
pub proof fn a_finished_scan_holds_what_it_came_to<M: Memory>(
    memory: &M,
    scans: Seq<Scan>,
    budget: int,
)
    requires
        is_coherent(memory),
        is_run(memory, scans, budget),
        scans.len() > 1,
        is_unread(scans[0]),
        are_ranges(scans[0].ranges@),
    ensures
        ({
            let quarry = scans[0].quarry();
            let ranges = scans[0].ranges@;
            let come_to = reached(
                memory,
                quarry,
                all_matched(memory, quarry.needle, ranges, ranges.len() as int),
            );
            &&& scans.last().found@ == chosen(memory, quarry, come_to, true)
            &&& scans.last().rejected@ == chosen(memory, quarry, come_to, false)
        }),
{
    if scans[0].limit == Some(0usize) {
        let quarry = scans[0].quarry();
        let ranges = scans[0].ranges@;
        lemma_nothing(memory, quarry, all_matched(memory, quarry.needle, ranges, ranges.len() as int));
        lemma_at_once(memory, scans, budget, scans.len() - 1);
        assert(scans.last().found@ =~= Seq::empty());
        assert(scans.last().rejected@ =~= Seq::empty());
    } else {
        lemma_run(memory, scans, budget, scans.len() - 1);
    }
}

proof fn lemma_nothing<M: Memory>(memory: &M, quarry: Quarry, all: Seq<u64>)
    requires
        quarry.limit == Some(0usize),
    ensures
        reached(memory, quarry, all).len() == 0,
    decreases all.len(),
{
    if all.len() > 0 {
        lemma_nothing(memory, quarry, all.drop_last());
    }
}

proof fn lemma_at_once<M: Memory>(memory: &M, scans: Seq<Scan>, budget: int, n: int)
    requires
        is_run(memory, scans, budget),
        scans[0].limit == Some(0usize),
        0 <= n < scans.len(),
    ensures
        scans[n].quarry() == scans[0].quarry(),
        scans[n].found@ == scans[0].found@,
        scans[n].rejected@ == scans[0].rejected@,
    decreases n,
{
    if n > 0 {
        lemma_at_once(memory, scans, budget, n - 1);
        assert(scans[n - 1].stepped(memory, budget, scans[n], n == scans.len() - 1));
    }
}

/// Whether no two of the ranges share an address.
pub open spec fn are_apart(ranges: Seq<(u64, u64)>) -> bool {
    forall|i: int, j: int|
        0 <= i < ranges.len() && 0 <= j < ranges.len() && i != j ==> {
            let a = #[trigger] ranges[i];
            let b = #[trigger] ranges[j];
            a.0 + a.1 <= b.0 || b.0 + b.1 <= a.0
        }
}

/// Matches in a range ascend, and are in it.
proof fn lemma_ascend<M: Memory>(memory: &M, needle: u64, range: (u64, u64), n: int)
    requires
        range.0 + range.1 <= 0x1_0000_0000_0000_0000,
        0 <= n <= range.1 / 8,
    ensures
        ({
            let all = matched(memory, needle, range, n);
            &&& forall|i: int, j: int| 0 <= i < j < all.len() ==> #[trigger] all[i] < #[trigger] all[j]
            &&& forall|i: int|
                0 <= i < all.len() ==> range.0 <= #[trigger] all[i] && all[i] < range.0 + 8 * n
        }),
    decreases n,
{
    if n > 0 {
        lemma_ascend(memory, needle, range, n - 1);
        let rest = matched(memory, needle, range, n - 1);
        let at = (range.0 + 8 * (n - 1)) as u64;
        assert(at == range.0 + 8 * (n - 1));
        let all = matched(memory, needle, range, n);
        assert forall|i: int, j: int| 0 <= i < j < all.len() implies #[trigger] all[i]
            < #[trigger] all[j] by {
            assert(all[i] == rest[i]);
            assert(j < rest.len() ==> all[j] == rest[j]);
        }
    }
}

proof fn lemma_each_once<M: Memory>(memory: &M, needle: u64, ranges: Seq<(u64, u64)>, n: int)
    requires
        are_ranges(ranges),
        are_apart(ranges),
        0 <= n <= ranges.len(),
    ensures
        ({
            let all = all_matched(memory, needle, ranges, n);
            &&& all.no_duplicates()
            &&& forall|i: int|
                0 <= i < all.len() ==> is_in_some(ranges.take(n), #[trigger] all[i])
        }),
    decreases n,
{
    if n > 0 {
        let before = all_matched(memory, needle, ranges, n - 1);
        let range = ranges[n - 1];
        let here = matched(memory, needle, range, (range.1 / 8) as int);
        let all = all_matched(memory, needle, ranges, n);
        lemma_each_once(memory, needle, ranges, n - 1);
        lemma_ascend(memory, needle, range, (range.1 / 8) as int);
        assert forall|i: int| 0 <= i < all.len() implies is_in_some(
            ranges.take(n),
            #[trigger] all[i],
        ) by {
            if i < before.len() {
                assert(is_in_some(ranges.take(n - 1), before[i]));
                let r = choose|r: int|
                    0 <= r < ranges.take(n - 1).len() && is_within(
                        #[trigger] ranges.take(n - 1)[r],
                        before[i],
                    );
                assert(ranges.take(n)[r] == ranges.take(n - 1)[r]);
            } else {
                assert(all[i] == here[i - before.len()]);
                assert(ranges.take(n)[n - 1] == range);
            }
        }
        assert forall|i: int, j: int| 0 <= i < all.len() && 0 <= j < all.len() && i != j implies all[i]
            != all[j] by {
            if i < before.len() && j >= before.len() {
                lemma_elsewhere(ranges, n, before[i], here[j - before.len()]);
            } else if j < before.len() && i >= before.len() {
                lemma_elsewhere(ranges, n, before[j], here[i - before.len()]);
            } else if i >= before.len() {
                let a = i - before.len();
                let b = j - before.len();
                assert(all[i] == here[a] && all[j] == here[b]);
                assert(a < b ==> here[a] < here[b]);
                assert(b < a ==> here[b] < here[a]);
            }
        }
    }
}

/// Whether an address is within a range.
spec fn is_within(range: (u64, u64), at: u64) -> bool {
    range.0 <= at && at < range.0 + range.1
}

spec fn is_in_some(ranges: Seq<(u64, u64)>, at: u64) -> bool {
    exists|r: int| 0 <= r < ranges.len() && is_within(#[trigger] ranges[r], at)
}

proof fn lemma_elsewhere(ranges: Seq<(u64, u64)>, n: int, a: u64, b: u64)
    requires
        are_apart(ranges),
        0 < n <= ranges.len(),
        is_in_some(ranges.take(n - 1), a),
        is_within(ranges[n - 1], b),
    ensures
        a != b,
{
    let r = choose|r: int|
        0 <= r < ranges.take(n - 1).len() && is_within(#[trigger] ranges.take(n - 1)[r], a);
    assert(ranges.take(n - 1)[r] == ranges[r]);
}

proof fn lemma_reached<M: Memory>(memory: &M, quarry: Quarry, all: Seq<u64>)
    ensures
        reached(memory, quarry, all).is_prefix_of(all),
    decreases all.len(),
{
    if all.len() > 0 {
        lemma_reached(memory, quarry, all.drop_last());
        let rest = reached(memory, quarry, all.drop_last());
        let come_to = reached(memory, quarry, all);
        if is_full(memory, quarry, rest) {
            assert(all.take(rest.len() as int) =~= all.drop_last().take(rest.len() as int));
        } else {
            lemma_not_full(memory, quarry, all.drop_last());
            assert(rest =~= all.drop_last());
            assert(come_to =~= all);
        }
        assert(come_to =~= all.take(come_to.len() as int));
    }
}

/// Where the limit is not reached, nothing is left out.
proof fn lemma_not_full<M: Memory>(memory: &M, quarry: Quarry, all: Seq<u64>)
    requires
        !is_full(memory, quarry, reached(memory, quarry, all)),
    ensures
        reached(memory, quarry, all) == all,
    decreases all.len(),
{
    if all.len() > 0 {
        lemma_not_full(memory, quarry, all.drop_last());
        assert(reached(memory, quarry, all) =~= all);
    }
}

proof fn lemma_chosen<M: Memory>(memory: &M, quarry: Quarry, all: Seq<u64>, admitted: bool)
    requires
        all.no_duplicates(),
    ensures
        ({
            let some = chosen(memory, quarry, all, admitted);
            &&& some.no_duplicates()
            &&& forall|i: int|
                0 <= i < some.len() ==> all.contains(#[trigger] some[i]) && is_admitted(
                    memory,
                    quarry,
                    some[i],
                ) == admitted
        }),
    decreases all.len(),
{
    if all.len() > 0 {
        let less = all.drop_last();
        lemma_chosen(memory, quarry, less, admitted);
        let rest = chosen(memory, quarry, less, admitted);
        let some = chosen(memory, quarry, all, admitted);
        assert(!less.contains(all.last()));
        assert forall|i: int| 0 <= i < some.len() implies all.contains(#[trigger] some[i])
            && is_admitted(memory, quarry, some[i]) == admitted by {
            if i < rest.len() {
                assert(some[i] == rest[i]);
                let k = less.index_of(rest[i]);
                assert(all[k] == rest[i]);
            } else {
                assert(all[all.len() - 1] == some[i]);
            }
        }
    }
}

/// Where its ranges are apart, a finished scan holds each address once: twice in
/// neither list, and in one of them only.
pub proof fn a_finished_scan_holds_each_once<M: Memory>(
    memory: &M,
    scans: Seq<Scan>,
    budget: int,
)
    requires
        is_coherent(memory),
        is_run(memory, scans, budget),
        scans.len() > 1,
        is_unread(scans[0]),
        are_ranges(scans[0].ranges@),
        are_apart(scans[0].ranges@),
    ensures
        scans.last().found@.no_duplicates(),
        scans.last().rejected@.no_duplicates(),
        forall|at: u64|
            scans.last().found@.contains(at) ==> !#[trigger] scans.last().rejected@.contains(at),
{
    let quarry = scans[0].quarry();
    let ranges = scans[0].ranges@;
    let all = all_matched(memory, quarry.needle, ranges, ranges.len() as int);
    a_finished_scan_holds_what_it_came_to(memory, scans, budget);
    lemma_each_once(memory, quarry.needle, ranges, ranges.len() as int);
    lemma_reached(memory, quarry, all);
    let come_to = reached(memory, quarry, all);
    assert(come_to.no_duplicates());
    lemma_chosen(memory, quarry, come_to, true);
    lemma_chosen(memory, quarry, come_to, false);
}

} // verus!
