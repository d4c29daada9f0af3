//! Finding objects: what is taken for one, and that the table's are all found.
use vstd::bytes::{lemma_auto_spec_u64_to_from_le_bytes, spec_u64_from_le_bytes};
use vstd::prelude::*;

use crate::locate::{first_taken, Accept, Locate, Located, Stage};
use crate::memory::flags::all_set;
use crate::memory::{is_coherent, plus, word_of, Memory, MemoryRange};
use crate::note::Note;
use crate::order::ascending;
use crate::promise::reading::{
    a_field_is_at_its_offset, has_number, has_word, is_honest, top, what_is_there_is_read,
};
use crate::scan::{scannable, Validator};
use crate::service::Found;
use crate::table::{
    candidates_among, entries_in, gathered, header_at, headers_counted, headers_in, instances_in,
    is_entry, is_instance, is_mapped, judged, reach, region_of, run_end, walk_over, writable,
    Identify, Progress, RangeWalk, ReferenceTable, TableSearch, Verdict,
};

verus! {

/// An object is what it is taken for where its field leads to an object of the
/// class that is expected there.
pub proof fn an_object_is_told_by_what_it_holds<M: Memory>(
    validator: Validator,
    memory: &M,
    object: u64,
    field: u64,
    vtable: u64,
)
    requires
        has_word(memory, object + validator.field_offset, field),
        validator.expected_vtable != 0,
    ensures
        field == 0 ==> !validator.admits(memory, object),
        field != 0 && has_word(memory, field as int, vtable) ==> (validator.admits(memory, object)
            <==> vtable == validator.expected_vtable),
{
    a_field_is_at_its_offset(memory, object, validator.field_offset, field);
    what_is_there_is_read(memory, field as int, vtable, 0, 0);
}

/// A range is swept just where it can be read and written and holds no code, and
/// is looked into from the table just where it can be written.
pub proof fn only_the_heap_is_looked_at(ranges: Seq<MemoryRange>, place: (u64, u64))
    ensures
        scannable(ranges).contains(place) <==> exists|i: int|
            0 <= i < ranges.len() && #[trigger] is_place(ranges[i], place) && ranges[i].flags & 1
                == 1 && ranges[i].flags & 2 == 2 && ranges[i].flags & 4 == 0,
        writable(ranges).contains(place) <==> exists|i: int|
            0 <= i < ranges.len() && #[trigger] is_place(ranges[i], place) && ranges[i].flags & 2
                == 2,
    decreases ranges.len(),
{
    if ranges.len() > 0 {
        let init = ranges.drop_last();
        let last = ranges.last();
        let flags = last.flags;
        only_the_heap_is_looked_at(init, place);
        assert(flags & 3 == 3 <==> (flags & 1 == 1 && flags & 2 == 2)) by (bit_vector);
        assert(flags & 4 == 4 <==> flags & 4 != 0) by (bit_vector);
        assert(1u64 | 2u64 == 3u64) by (bit_vector);
        assert(all_set(flags, 3) <==> (flags & 1 == 1 && flags & 2 == 2));
        assert(ranges[ranges.len() - 1] == last);
        let some = scannable(init);
        let all = scannable(ranges);
        let few = writable(init);
        let more = writable(ranges);
        if all.contains(place) {
            let k = all.index_of(place);
            if k < some.len() {
                assert(some[k] == place);
                assert(some.contains(place));
                let i = choose|i: int|
                    0 <= i < init.len() && #[trigger] is_place(init[i], place) && init[i].flags & 1
                        == 1 && init[i].flags & 2 == 2 && init[i].flags & 4 == 0;
                assert(is_place(ranges[i], place));
            } else {
                assert(is_place(last, place));
            }
        }
        if more.contains(place) {
            let k = more.index_of(place);
            if k < few.len() {
                assert(few[k] == place);
                assert(few.contains(place));
                let i = choose|i: int|
                    0 <= i < init.len() && #[trigger] is_place(init[i], place) && init[i].flags & 2
                        == 2;
                assert(is_place(ranges[i], place));
            } else {
                assert(is_place(last, place));
            }
        }
        assert forall|i: int|
            0 <= i < ranges.len() && #[trigger] is_place(ranges[i], place) && ranges[i].flags & 2
                == 2 implies more.contains(place) && (ranges[i].flags & 1 == 1 && ranges[i].flags
            & 4 == 0 ==> all.contains(place)) by {
            if i < init.len() {
                assert(is_place(init[i], place));
                assert(few.contains(place));
                let k = few.index_of(place);
                assert(more[k] == place);
                if ranges[i].flags & 1 == 1 && ranges[i].flags & 4 == 0 {
                    assert(some.contains(place));
                    let k = some.index_of(place);
                    assert(all[k] == place);
                }
            } else {
                assert(more[few.len() as int] == place);
                if flags & 1 == 1 && flags & 4 == 0 {
                    assert(all[some.len() as int] == place);
                }
            }
        }
    }
}

/// Whether a range is at this place.
pub open spec fn is_place(range: MemoryRange, place: (u64, u64)) -> bool {
    range.address == place.0 && range.size == place.1
}

/// Whether ranges lie one behind the other, apart, and none is empty.
pub open spec fn are_apart(ranges: Seq<(u64, u64)>) -> bool {
    &&& forall|i: int| 0 <= i < ranges.len() ==> (#[trigger] ranges[i]).1 > 0
    &&& forall|i: int, j: int|
        0 <= i < j < ranges.len() ==> (#[trigger] ranges[i]).0 + ranges[i].1 <= (
        #[trigger] ranges[j]).0
}

/// A word may be an entry of the table where it is a reference into one of the
/// ranges: not null, aligned, and inside it.
pub proof fn an_entry_leads_into_a_range(ranges: Seq<(u64, u64)>, word: u64)
    requires
        are_apart(ranges),
    ensures
        is_entry(ranges, word) <==> word != 0 && word % 8 == 0 && exists|i: int|
            0 <= i < ranges.len() && (#[trigger] ranges[i]).0 <= word < ranges[i].0 + ranges[i].1,
{
    assert forall|i: int|
        0 <= i < ranges.len() && (#[trigger] ranges[i]).0 <= word < ranges[i].0
            + ranges[i].1 implies is_mapped(ranges, word) by {
        if i + 1 < ranges.len() {
            assert(ranges[i].0 + ranges[i].1 <= ranges[i + 1].0);
        }
    }
}

/// An object's header is its first word, wherever the page it is in can be read.
pub proof fn a_header_is_the_first_word<M: Memory>(memory: &M, object: u64, word: u64)
    requires
        is_coherent(memory),
        is_honest(memory),
        object % 8 == 0,
    ensures
        memory.contents((object - object % 4096) as u64, 4096) is Some && has_word(
            memory,
            object as int,
            word,
        ) ==> header_at(memory, object) == Some(word),
        header_at(memory, object) == Some(word) ==> has_word(memory, object as int, word),
{
    lemma_auto_spec_u64_to_from_le_bytes();
    let start = (object - object % 0x1_0000) as u64;
    let page = (object - object % 4096) as u64;
    if memory.contents(start, 0x1_0000) is Some {
        let bytes = memory.contents(start, 0x1_0000)->0;
        let i = (object - start) / 8;
        assert(8 * i == object - start);
        assert(memory.contents(object, 8) == Some(
            bytes.subrange(object - start, object - start + 8),
        ));
    } else if memory.contents(page, 4096) is Some {
        let bytes = memory.contents(page, 4096)->0;
        let i = (object - page) / 8;
        assert(8 * i == object - page);
        assert(memory.contents(object, 8) == Some(bytes.subrange(object - page, object - page + 8)));
    }
}

/// The first object that will do is taken: not the one that is to be skipped,
/// and where a state is asked for, one that is still below the bound.
pub proof fn the_first_that_will_do_is_taken<M: Memory>(
    memory: &M,
    accept: Accept,
    instances: Seq<u64>,
)
    ensures
        match first_taken(memory, accept, instances) {
            Some(taken) => exists|i: int|
                0 <= i < instances.len() && #[trigger] instances[i] == taken && accept.takes(
                    memory,
                    taken,
                ) && forall|k: int|
                    0 <= k < i ==> !accept.takes(memory, #[trigger] instances[k]),
            None => forall|k: int|
                0 <= k < instances.len() ==> !accept.takes(memory, #[trigger] instances[k]),
        },
    decreases instances.len(),
{
    if instances.len() > 0 && !accept.takes(memory, instances[0]) {
        let rest = instances.drop_first();
        the_first_that_will_do_is_taken(memory, accept, rest);
        assert forall|k: int| 0 <= k < rest.len() implies #[trigger] rest[k] == instances[k + 1] by {
        }
        match first_taken(memory, accept, rest) {
            Some(taken) => {
                let i = choose|i: int|
                    0 <= i < rest.len() && #[trigger] rest[i] == taken && accept.takes(
                        memory,
                        taken,
                    ) && forall|k: int|
                        0 <= k < i ==> !accept.takes(memory, #[trigger] rest[k]);
                assert(instances[i + 1] == taken);
                assert forall|k: int| 0 <= k < i + 1 implies !accept.takes(
                    memory,
                    #[trigger] instances[k],
                ) by {
                    if k > 0 {
                        assert(rest[k - 1] == instances[k]);
                    }
                }
            },
            None => {
                assert forall|k: int| 0 <= k < instances.len() implies !accept.takes(
                    memory,
                    #[trigger] instances[k],
                ) by {
                    if k > 0 {
                        assert(rest[k - 1] == instances[k]);
                    }
                }
            },
        }
    }
}

/// What will do: anything but what is to be skipped, and where a state is asked
/// for, only what reads below the bound.
pub proof fn what_will_do<M: Memory>(
    memory: &M,
    accept: Accept,
    object: u64,
    state: i32,
)
    ensures
        accept.skip == Some(object) ==> !accept.takes(memory, object),
        accept.skip != Some(object) && accept.below is None ==> accept.takes(memory, object),
        accept.skip != Some(object) ==> (accept.below matches Some((offset, bound)) ==> (has_number(
            memory,
            object + offset,
            state,
        ) ==> (accept.takes(memory, object) <==> state < bound))),
{
    if let Some((offset, bound)) = accept.below {
        what_is_there_is_read(memory, object + offset, 0, state, 0);
    }
}

/// Whether a table can be read whole.
pub open spec fn is_readable<M: Memory>(memory: &M, base: u64, size: u64) -> bool {
    &&& is_coherent(memory)
    &&& is_honest(memory)
    &&& base + size <= top()
    &&& size > 0
    &&& memory.contents(base, size as nat) is Some
}

/// Whether one of the table's words, in front of `upto`, is this entry.
pub open spec fn is_in_table<M: Memory>(
    memory: &M,
    ranges: Seq<(u64, u64)>,
    base: u64,
    upto: int,
    word: u64,
) -> bool {
    is_entry(ranges, word) && exists|k: int|
        0 <= k && 8 * k + 8 <= upto && #[trigger] has_word(memory, base + 8 * k, word)
}

/// Whether the entries are those of the table's words in front of `upto`.
pub open spec fn are_gathered<M: Memory>(
    memory: &M,
    search: TableSearch,
    upto: int,
) -> bool {
    forall|word: u64| #[trigger]
        search.entries@.contains(word) <==> is_in_table(
            memory,
            search.ranges@,
            search.walk.base,
            upto,
            word,
        )
}

proof fn lemma_walk_words<M: Memory>(memory: &M, walk: RangeWalk, i: int, word: u64)
    requires
        is_readable(memory, walk.base, walk.size),
        walk.offset <= walk.size,
        0 <= i < walk.ahead(),
    ensures
        walk.words(memory).len() == walk.ahead(),
        walk.words(memory)[i] == word <==> has_word(
            memory,
            walk.base + walk.offset + 8 * i,
            word,
        ),
        walk.passed(memory).read_any,
{
    lemma_auto_spec_u64_to_from_le_bytes();
    let start = (walk.base + walk.offset) as u64;
    let n = (8 * walk.ahead()) as nat;
    assert(8 * walk.ahead() <= walk.size - walk.offset);
    assert(plus(walk.base, walk.offset) == start);
    assert(memory.contents(start, n) is Some);
    let bytes = memory.contents(start, n)->0;
    let at = (start + 8 * i) as u64;
    assert(memory.contents(at, 8) == Some(bytes.subrange(8 * i, 8 * i + 8)));
    assert(walk.words(memory)[i] == word_of(bytes, i));
    assert(word_of(bytes, i) == spec_u64_from_le_bytes(bytes.subrange(8 * i, 8 * i + 8)));
}

proof fn lemma_entries_in(ranges: Seq<(u64, u64)>, words: Seq<u64>, word: u64)
    ensures
        entries_in(ranges, words).contains(word) <==> is_entry(ranges, word) && words.contains(word),
    decreases words.len(),
{
    if words.len() > 0 {
        let init = words.drop_last();
        lemma_entries_in(ranges, init, word);
        let some = entries_in(ranges, init);
        let all = entries_in(ranges, words);
        if all.contains(word) {
            let k = all.index_of(word);
            if k < some.len() {
                assert(some[k] == word);
                let i = init.index_of(word);
                assert(words[i] == word);
            } else {
                assert(words[words.len() - 1] == word);
            }
        }
        if is_entry(ranges, word) && words.contains(word) {
            let i = words.index_of(word);
            if i < init.len() {
                assert(init[i] == word);
                let k = some.index_of(word);
                assert(all[k] == word);
            } else {
                assert(all[some.len() as int] == word);
            }
        }
    }
}

/// The entries gathered over a stretch of a table that can be read.
proof fn lemma_gathered<M: Memory>(
    memory: &M,
    ranges: Seq<(u64, u64)>,
    walk: RangeWalk,
    entries: Seq<u64>,
    left: int,
)
    requires
        is_readable(memory, walk.base, walk.size),
        walk.offset <= walk.size,
        walk.offset % 8 == 0,
        walk.offset > 0 ==> walk.read_any,
        forall|word: u64| #[trigger]
            entries.contains(word) <==> is_in_table(
                memory,
                ranges,
                walk.base,
                walk.offset as int,
                word,
            ),
    ensures
        ({
            let (after, all, covered) = gathered(memory, ranges, walk, entries, left);
            &&& after.base == walk.base
            &&& after.size == walk.size
            &&& after.offset <= after.size
            &&& after.offset % 8 == 0
            &&& after.offset > 0 ==> after.read_any
            &&& covered ==> after.size - after.offset < 8
            &&& forall|word: u64| #[trigger]
                all.contains(word) <==> is_in_table(
                    memory,
                    ranges,
                    walk.base,
                    after.offset as int,
                    word,
                )
        }),
    decreases walk.size - walk.offset,
{
    if walk.ahead() > 0 {
        let words = walk.words(memory);
        let next = walk.passed(memory);
        let all = entries + entries_in(ranges, words);
        lemma_walk_words(memory, walk, 0, 0);
        assert(next.offset == walk.offset + 8 * walk.ahead());
        assert forall|word: u64| #[trigger] all.contains(word) <==> is_in_table(
            memory,
            ranges,
            walk.base,
            next.offset as int,
            word,
        ) by {
            lemma_entries_in(ranges, words, word);
            if all.contains(word) {
                let k = all.index_of(word);
                if k < entries.len() {
                    assert(entries[k] == word);
                    assert(entries.contains(word));
                } else {
                    assert(entries_in(ranges, words)[k - entries.len()] == word);
                    let i = words.index_of(word);
                    lemma_walk_words(memory, walk, i, word);
                    let j = walk.offset as int / 8 + i;
                    assert(8 * j == walk.offset + 8 * i);
                    assert(has_word(memory, walk.base + 8 * j, word));
                }
            }
            if is_in_table(memory, ranges, walk.base, next.offset as int, word) {
                let k = choose|k: int|
                    0 <= k && 8 * k + 8 <= next.offset && #[trigger] has_word(
                        memory,
                        walk.base + 8 * k,
                        word,
                    );
                if 8 * k + 8 <= walk.offset {
                    assert(is_in_table(memory, ranges, walk.base, walk.offset as int, word));
                    assert(entries.contains(word));
                    assert(all[entries.index_of(word)] == word);
                } else {
                    let i = k - walk.offset as int / 8;
                    assert(8 * k == walk.offset + 8 * i);
                    lemma_walk_words(memory, walk, i, word);
                    assert(words[i] == word);
                    assert(words.contains(word));
                    let at = entries_in(ranges, words).index_of(word);
                    assert(all[entries.len() + at] == word);
                }
            }
        }
        if left > 8 * walk.ahead() {
            lemma_gathered(memory, ranges, next, all, left - 8 * walk.ahead());
        }
    }
}

/// What a search has found so far: just those of the entries looked at that are
/// of its class.
pub open spec fn are_found<M: Memory>(memory: &M, search: TableSearch) -> bool {
    &&& search.at <= search.entries@.len()
    &&& forall|object: u64| #[trigger]
        search.instances@.contains(object) <==> is_instance(
            memory,
            search.vtable,
            search.validator,
            object,
        ) && search.entries@.take(search.at as int).contains(object)
}

/// Whether a search of a table that can be read has kept to it so far.
pub open spec fn is_under_way<M: Memory>(memory: &M, search: TableSearch) -> bool {
    &&& search.wf()
    &&& search.limit > 0
    &&& is_readable(memory, search.walk.base, search.walk.size)
    &&& search.walk.size >= 8
    &&& search.walk.offset % 8 == 0
    &&& search.walk.offset > 0 ==> search.walk.read_any
    &&& are_gathered(
        memory,
        search,
        if search.sorted {
            search.walk.size as int
        } else {
            search.walk.offset as int
        },
    )
    &&& are_found(memory, search)
}

proof fn lemma_instances_in<M: Memory>(
    memory: &M,
    vtable: u64,
    validator: Validator,
    objects: Seq<u64>,
    object: u64,
)
    ensures
        instances_in(memory, vtable, validator, objects).contains(object) <==> is_instance(
            memory,
            vtable,
            validator,
            object,
        ) && objects.contains(object),
    decreases objects.len(),
{
    if objects.len() > 0 {
        let init = objects.drop_last();
        lemma_instances_in(memory, vtable, validator, init, object);
        let some = instances_in(memory, vtable, validator, init);
        let all = instances_in(memory, vtable, validator, objects);
        if all.contains(object) {
            let k = all.index_of(object);
            if k < some.len() {
                assert(some[k] == object);
                let i = init.index_of(object);
                assert(objects[i] == object);
            } else {
                assert(objects[objects.len() - 1] == object);
            }
        }
        if is_instance(memory, vtable, validator, object) && objects.contains(object) {
            let i = objects.index_of(object);
            if i < init.len() {
                assert(init[i] == object);
                let k = some.index_of(object);
                assert(all[k] == object);
            } else {
                assert(all[some.len() as int] == object);
            }
        }
    }
}

proof fn lemma_run_end(entries: Seq<u64>, at: int, window: int)
    requires
        0 <= at <= entries.len(),
    ensures
        at <= run_end(entries, at, window) <= entries.len(),
    decreases entries.len() - at,
{
    if at < entries.len() && entries[at] as int / 0x1_0000 == window {
        lemma_run_end(entries, at + 1, window);
    }
}

proof fn lemma_reach(entries: Seq<u64>, at: int, left: int)
    requires
        0 <= at <= entries.len(),
    ensures
        at <= reach(entries, at, left).0 <= entries.len(),
        reach(entries, at, left).1 ==> reach(entries, at, left).0 == entries.len(),
    decreases entries.len() - at,
{
    if at < entries.len() {
        let stop = run_end(entries, at + 1, entries[at] as int / 0x1_0000);
        lemma_run_end(entries, at + 1, entries[at] as int / 0x1_0000);
        if left > 0x1_0000 {
            lemma_reach(entries, stop, left - 0x1_0000);
        }
    }
}

/// Whether what a search came to is all it should: nothing but objects of its
/// class that the table has, all of them unless that is more than were asked for.
pub open spec fn is_answer<M: Memory>(memory: &M, search: TableSearch, found: Seq<u64>) -> bool {
    &&& found.len() <= search.limit
    &&& forall|object: u64| #[trigger]
        found.contains(object) ==> is_instance(memory, search.vtable, search.validator, object)
            && is_in_table(
            memory,
            search.ranges@,
            search.walk.base,
            search.walk.size as int,
            object,
        )
    &&& found.len() < search.limit ==> forall|object: u64|
        is_instance(memory, search.vtable, search.validator, object) && #[trigger] is_in_table(
            memory,
            search.ranges@,
            search.walk.base,
            search.walk.size as int,
            object,
        ) ==> found.contains(object)
}

proof fn lemma_looked<M: Memory>(
    memory: &M,
    search: TableSearch,
    budget: int,
    after: TableSearch,
    progress: Progress,
)
    requires
        search.sorted,
        is_under_way(memory, search),
        after.continues(search),
        search.looked(memory, budget, after, progress),
        progress is Pending ==> after.wf(),
    ensures
        progress !is Unreadable,
        progress is Pending ==> is_under_way(memory, after),
        progress is Finished ==> is_answer(memory, search, after.instances@),
{
    let at = search.at as int;
    let entries = search.entries@;
    let (stop, covered) = reach(entries, at, budget);
    lemma_reach(entries, at, budget);
    let part = entries.subrange(at, stop);
    let some = instances_in(memory, search.vtable, search.validator, part);
    let all = search.instances@ + some;
    assert forall|object: u64| #[trigger] all.contains(object) <==> is_instance(
        memory,
        search.vtable,
        search.validator,
        object,
    ) && entries.take(stop).contains(object) by {
        lemma_instances_in(memory, search.vtable, search.validator, part, object);
        if all.contains(object) {
            let k = all.index_of(object);
            if k < search.instances@.len() {
                assert(search.instances@[k] == object);
                assert(search.instances@.contains(object));
                let i = entries.take(at).index_of(object);
                assert(entries.take(stop)[i] == object);
            } else {
                assert(some[k - search.instances@.len()] == object);
                assert(some.contains(object));
                let i = part.index_of(object);
                assert(entries.take(stop)[at + i] == object);
            }
        }
        if is_instance(memory, search.vtable, search.validator, object) && entries.take(
            stop,
        ).contains(object) {
            let i = entries.take(stop).index_of(object);
            if i < at {
                assert(entries.take(at)[i] == object);
                assert(entries.take(at).contains(object));
                assert(search.instances@.contains(object));
                let k = search.instances@.index_of(object);
                assert(all[k] == object);
            } else {
                assert(part[i - at] == object);
                assert(part.contains(object));
                assert(some.contains(object));
                let k = some.index_of(object);
                assert(all[search.instances@.len() + k] == object);
            }
        }
    }
    if progress is Finished {
        let found = after.instances@;
        assert forall|object: u64| #[trigger] found.contains(object) implies is_instance(
            memory,
            search.vtable,
            search.validator,
            object,
        ) && is_in_table(
            memory,
            search.ranges@,
            search.walk.base,
            search.walk.size as int,
            object,
        ) by {
            let k = found.index_of(object);
            assert(all[k] == object);
            assert(all.contains(object));
            let i = entries.take(stop).index_of(object);
            assert(entries[i] == object);
            assert(entries.contains(object));
        }
        if found.len() < search.limit {
            assert(entries.take(stop) =~= entries);
            assert forall|object: u64|
                is_instance(memory, search.vtable, search.validator, object)
                    && #[trigger] is_in_table(
                    memory,
                    search.ranges@,
                    search.walk.base,
                    search.walk.size as int,
                    object,
                ) implies found.contains(object) by {
                assert(entries.contains(object));
            }
        }
    }
}

/// A search of a table that can be read goes on until it has looked at all of
/// it, and then has found what it should.
pub proof fn a_search_finds_what_the_table_has<M: Memory>(
    memory: &M,
    search: TableSearch,
    budget: int,
    after: TableSearch,
    progress: Progress,
)
    requires
        is_under_way(memory, search),
        after.continues(search),
        search.stepped(memory, budget, after, progress),
        progress is Pending ==> after.wf(),
    ensures
        progress !is Unreadable,
        progress is Pending ==> is_under_way(memory, after),
        progress is Finished ==> is_answer(memory, search, after.instances@),
{
    if search.sorted {
        lemma_looked(memory, search, budget, after, progress);
    } else {
        let (walk, entries, covered) = gathered(
            memory,
            search.ranges@,
            search.walk,
            search.entries@,
            budget,
        );
        lemma_gathered(memory, search.ranges@, search.walk, search.entries@, budget);
        if !covered {
            assert(search.entries@.take(0).len() == 0);
            assert(after.entries@.take(0).len() == 0);
            assert forall|object: u64| !(#[trigger] after.instances@.contains(object)) by {}
        } else {
            assert forall|word: u64| #[trigger] entries.contains(word) implies is_in_table(
                memory,
                search.ranges@,
                walk.base,
                walk.size as int,
                word,
            ) by {
                let k = choose|k: int|
                    0 <= k && 8 * k + 8 <= walk.offset && #[trigger] has_word(
                        memory,
                        walk.base + 8 * k,
                        word,
                    );
                assert(has_word(memory, walk.base + 8 * k, word));
            }
            assert forall|word: u64| #[trigger] is_in_table(
                memory,
                search.ranges@,
                walk.base,
                walk.size as int,
                word,
            ) implies entries.contains(word) by {
                let k = choose|k: int|
                    0 <= k && 8 * k + 8 <= walk.size && #[trigger] has_word(
                        memory,
                        walk.base + 8 * k,
                        word,
                    );
                assert(8 * k + 8 <= walk.offset);
            }
            let mid = choose|mid: TableSearch|
                {
                    &&& #[trigger] mid.continues(search)
                    &&& mid.walk == walk
                    &&& ascending(mid.entries@)
                    &&& crate::order::same_values(mid.entries@, entries)
                    &&& mid.sorted
                    &&& mid.at == 0
                    &&& mid.instances@ == search.instances@
                    &&& mid.looked(memory, budget, after, progress)
                };
            assert(mid.entries@.take(0).len() == 0);
            assert forall|i: int| 0 <= i < mid.entries@.len() implies #[trigger] mid.entries@[i] % 8
                == 0 by {
                assert(mid.entries@.contains(mid.entries@[i]));
                assert(entries.contains(mid.entries@[i]));
            }
            lemma_looked(memory, mid, budget, after, progress);
        }
    }
}

/// A search that is just beginning has kept to the table so far.
pub proof fn a_search_begins_with_nothing<M: Memory>(memory: &M, search: TableSearch)
    requires
        search.wf(),
        search.limit > 0,
        is_readable(memory, search.walk.base, search.walk.size),
        search.walk.size >= 8,
        search.walk.offset == 0,
        search.entries@.len() == 0,
        search.instances@.len() == 0,
        !search.sorted,
    ensures
        is_under_way(memory, search),
{
    assert forall|word: u64| !(#[trigger] search.entries@.contains(word)) && !(
    #[trigger] search.instances@.contains(word)) by {}
}

/// What is located will do, whichever way it was found.
pub proof fn what_is_located_will_do<M: Memory>(
    locate: Locate,
    memory: &M,
    ranges: Seq<MemoryRange>,
    table: Option<ReferenceTable>,
    after: Locate,
    table_after: Option<ReferenceTable>,
    found: Found,
    said: Seq<Note>,
    object: u64,
)
    requires
        locate.stepped(memory, ranges, table, after, table_after, Located::Done(found), said),
        found.first() == Some(object),
    ensures
        locate.accept.takes(memory, object),
        found.instances@ == seq![object],
{
    assert forall|instances: Seq<u64>| (#[trigger] first_taken(
        memory,
        locate.accept,
        instances,
    )) matches Some(taken) implies locate.accept.takes(
        memory,
        first_taken(memory, locate.accept, instances)->0,
    ) by {
        the_first_that_will_do_is_taken(memory, locate.accept, instances);
    }
}

/// How many of the first `n` words from `base` on lead into the metadata.
pub open spec fn headers_from<M: Memory>(
    memory: &M,
    metadata: (u64, u64),
    base: u64,
    n: int,
) -> int
    decreases n,
{
    if n <= 0 {
        0
    } else {
        headers_from(memory, metadata, base, n - 1) + if leads_into(
            memory,
            metadata,
            base + 8 * (n - 1),
        ) {
            1int
        } else {
            0
        }
    }
}

/// Whether the word at `at` is a reference into the metadata.
pub open spec fn leads_into<M: Memory>(memory: &M, metadata: (u64, u64), at: int) -> bool {
    exists|word: u64| #[trigger]
        has_word(memory, at, word) && word % 8 == 0 && metadata.0 <= word < metadata.0 + metadata.1
}

proof fn lemma_headers_in<M: Memory>(
    memory: &M,
    metadata: (u64, u64),
    walk: RangeWalk,
    n: int,
)
    requires
        is_readable(memory, walk.base, walk.size),
        walk.offset <= walk.size,
        walk.offset % 8 == 0,
        0 <= n <= walk.ahead(),
        walk.ahead() > 0,
    ensures
        walk.words(memory).len() == walk.ahead(),
        headers_from(memory, metadata, walk.base, walk.offset as int / 8 + n) == headers_from(
            memory,
            metadata,
            walk.base,
            walk.offset as int / 8,
        ) + headers_in(walk.words(memory).take(n), metadata),
    decreases n,
{
    let words = walk.words(memory);
    let k = walk.offset as int / 8;
    lemma_walk_words(memory, walk, 0, 0);
    if n > 0 {
        lemma_headers_in(memory, metadata, walk, n - 1);
        let part = words.take(n);
        assert(part.drop_last() =~= words.take(n - 1));
        let word = words[n - 1];
        assert(part.last() == word);
        lemma_walk_words(memory, walk, n - 1, word);
        let at = walk.base + 8 * (k + n - 1);
        assert(at == walk.base + walk.offset + 8 * (n - 1));
        assert(has_word(memory, at, word));
        if leads_into(memory, metadata, at) {
            let other = choose|other: u64| #[trigger]
                has_word(memory, at, other) && other % 8 == 0 && metadata.0 <= other < metadata.0
                    + metadata.1;
            lemma_walk_words(memory, walk, n - 1, other);
        }
    }
}

proof fn lemma_headers_grow<M: Memory>(
    memory: &M,
    metadata: (u64, u64),
    base: u64,
    n: int,
    m: int,
)
    requires
        0 <= n <= m,
    ensures
        0 <= headers_from(memory, metadata, base, n) <= headers_from(memory, metadata, base, m),
    decreases m,
{
    if n < m {
        lemma_headers_grow(memory, metadata, base, n, m - 1);
    } else if n > 0 {
        lemma_headers_grow(memory, metadata, base, n - 1, n - 1);
    }
}

proof fn lemma_headers_counted<M: Memory>(
    memory: &M,
    walk: RangeWalk,
    metadata: (u64, u64),
    limit: u32,
    headers: int,
    left: int,
)
    requires
        is_readable(memory, walk.base, walk.size),
        walk.offset <= walk.size,
        walk.offset % 8 == 0,
        headers == headers_from(memory, metadata, walk.base, walk.offset as int / 8),
        headers <= limit,
    ensures
        ({
            let (after, total, covered) = headers_counted(
                memory,
                walk,
                metadata,
                limit,
                headers,
                left,
            );
            let whole = headers_from(memory, metadata, walk.base, walk.size as int / 8);
            &&& after.base == walk.base
            &&& after.size == walk.size
            &&& after.offset <= after.size
            &&& after.offset % 8 == 0
            &&& total <= limit ==> total == headers_from(
                memory,
                metadata,
                walk.base,
                after.offset as int / 8,
            )
            &&& covered && total <= limit ==> total == whole
            &&& total > limit ==> whole > limit
            &&& !covered ==> total <= limit
        }),
    decreases walk.size - walk.offset,
{
    if walk.ahead() == 0 {
        assert(walk.offset as int / 8 == walk.size as int / 8);
    } else {
        let words = walk.words(memory);
        let next = walk.passed(memory);
        lemma_headers_in(memory, metadata, walk, walk.ahead());
        assert(words.take(walk.ahead()) =~= words);
        let total = headers + headers_in(words, metadata);
        assert(next.offset as int / 8 == walk.offset as int / 8 + walk.ahead());
        if total > limit {
            lemma_headers_grow(
                memory,
                metadata,
                walk.base,
                next.offset as int / 8,
                walk.size as int / 8,
            );
        } else if left > 8 * walk.ahead() {
            lemma_headers_counted(memory, next, metadata, limit, total, left - 8 * walk.ahead());
        }
    }
}

/// How many words of a candidate lead into the metadata: in the part of it that
/// is looked at.
pub open spec fn headers_of<M: Memory>(
    memory: &M,
    metadata: (u64, u64),
    candidate: (u64, u64),
) -> int {
    headers_from(
        memory,
        metadata,
        candidate.0,
        if candidate.1 < 0x400_0000 {
            candidate.1 as int / 8
        } else {
            0x80_0000
        },
    )
}

/// Whether every candidate can be read, as far as it is looked at.
pub open spec fn are_readable<M: Memory>(memory: &M, candidates: Seq<(u64, u64)>) -> bool {
    forall|i: int|
        0 <= i < candidates.len() ==> is_readable(
            memory,
            (#[trigger] candidates[i]).0,
            if candidates[i].1 < 0x400_0000 {
                candidates[i].1
            } else {
                0x400_0000
            },
        )
}

/// Whether all candidates so far were heap, and the next has been counted as far
/// as it has been looked at.
pub open spec fn is_telling<M: Memory>(memory: &M, identify: Identify) -> bool {
    &&& identify.wf()
    &&& are_readable(memory, identify.candidates@)
    &&& are_heap(memory, identify.metadata, identify.candidates@, identify.index as int)
    &&& is_counted(
        memory,
        identify.metadata,
        identify.candidates@,
        identify.index as int,
        identify.walk,
        identify.counted as int,
    )
}

/// Whether the first `n` candidates are heap: full of objects, each with a header.
pub open spec fn are_heap<M: Memory>(
    memory: &M,
    metadata: (u64, u64),
    candidates: Seq<(u64, u64)>,
    n: int,
) -> bool {
    forall|i: int|
        0 <= i < n && i < candidates.len() ==> headers_of(
            memory,
            metadata,
            #[trigger] candidates[i],
        ) > 64
}

/// Whether a candidate has been counted as far as a walk over it has come.
pub open spec fn is_counted<M: Memory>(
    memory: &M,
    metadata: (u64, u64),
    candidates: Seq<(u64, u64)>,
    index: int,
    walk: RangeWalk,
    counted: int,
) -> bool {
    0 <= index < candidates.len() ==> {
        &&& walk.base == candidates[index].0
        &&& walk.size == if candidates[index].1 < 0x400_0000 {
            candidates[index].1
        } else {
            0x400_0000
        }
        &&& walk.offset <= walk.size
        &&& walk.offset % 8 == 0
        &&& counted <= 64
        &&& counted == headers_from(memory, metadata, walk.base, walk.offset as int / 8)
    }
}

proof fn lemma_judged<M: Memory>(
    memory: &M,
    metadata: (u64, u64),
    candidates: Seq<(u64, u64)>,
    index: int,
    walk: RangeWalk,
    counted: int,
    budget: int,
)
    requires
        0 <= index,
        are_readable(memory, candidates),
        are_heap(memory, metadata, candidates, index),
        is_counted(memory, metadata, candidates, index, walk, counted),
    ensures
        ({
            let (at, next, headers, covered) = judged(
                memory,
                metadata,
                candidates,
                index,
                walk,
                counted,
                budget,
            );
            &&& 0 <= at
            &&& are_heap(memory, metadata, candidates, at)
            &&& at < candidates.len() && covered ==> headers == headers_of(
                memory,
                metadata,
                candidates[at],
            ) && headers <= 64
            &&& at < candidates.len() && !covered ==> is_counted(
                memory,
                metadata,
                candidates,
                at,
                next,
                headers,
            )
        }),
    decreases candidates.len() - index,
{
    if index < candidates.len() {
        assert(is_readable(memory, walk.base, walk.size)) by {
            let candidate = candidates[index];
        }
        lemma_headers_counted(memory, walk, metadata, 64, counted, budget);
        let (next, headers, covered) = headers_counted(
            memory,
            walk,
            metadata,
            64,
            counted,
            budget,
        );
        if covered && headers > 64 {
            lemma_judged(
                memory,
                metadata,
                candidates,
                index + 1,
                walk_over(candidates, index + 1),
                0,
                budget,
            );
        }
    }
}

/// The table is told from heap by its words: it is the first candidate with few
/// that lead into the metadata, and there is none where all have many.
pub proof fn the_table_has_few_headers<M: Memory>(
    memory: &M,
    identify: Identify,
    budget: int,
    after: Identify,
    verdict: Verdict,
    said: Seq<Note>,
)
    requires
        is_telling(memory, identify),
        identify.stepped(memory, budget, after, verdict, said),
        verdict is Pending ==> after.wf(),
    ensures
        verdict is Pending ==> is_telling(memory, after),
        verdict is Nothing ==> are_heap(
            memory,
            identify.metadata,
            identify.candidates@,
            identify.candidates@.len() as int,
        ),
        verdict matches Verdict::Found(table) ==> table.misses == 0 && exists|i: int|
            0 <= i < identify.candidates@.len() && #[trigger] identify.candidates@[i] == (
                table.base,
                table.seen,
            ) && headers_of(memory, identify.metadata, identify.candidates@[i]) <= 64 && are_heap(
                memory,
                identify.metadata,
                identify.candidates@,
                i,
            ),
{
    lemma_judged(
        memory,
        identify.metadata,
        identify.candidates@,
        identify.index as int,
        identify.walk,
        identify.counted as int,
        budget,
    );
    let (index, walk, headers, covered) = judged(
        memory,
        identify.metadata,
        identify.candidates@,
        identify.index as int,
        identify.walk,
        identify.counted as int,
        budget,
    );
    if let Verdict::Found(table) = verdict {
        assert(identify.candidates@[index] == (table.base, table.seen));
    }
}

/// Every range that holds the anchor is a candidate, once, but for the one that
/// the anchor itself is in.
pub proof fn the_anchors_own_range_is_no_candidate(
    holders: Seq<(u64, u64)>,
    anchor: u64,
    place: (u64, u64),
)
    ensures
        candidates_among(holders, anchor).contains(place) <==> holders.contains(place) && !(place.0
            <= anchor < place.0 + place.1),
        candidates_among(holders, anchor).no_duplicates(),
    decreases holders.len(),
{
    if holders.len() > 0 {
        let init = holders.drop_last();
        let last = holders.last();
        the_anchors_own_range_is_no_candidate(init, anchor, place);
        the_anchors_own_range_is_no_candidate(init, anchor, last);
        let some = candidates_among(init, anchor);
        let all = candidates_among(holders, anchor);
        if all.contains(place) {
            let k = all.index_of(place);
            if k < some.len() {
                assert(some[k] == place);
                assert(some.contains(place));
                let i = init.index_of(place);
                assert(holders[i] == place);
            } else {
                assert(holders[holders.len() - 1] == place);
            }
        }
        if holders.contains(place) && !(place.0 <= anchor < place.0 + place.1) {
            let i = holders.index_of(place);
            if i < init.len() {
                assert(init[i] == place);
                assert(init.contains(place));
                let k = some.index_of(place);
                assert(all[k] == place);
            } else if some.contains(last) {
                let k = some.index_of(last);
                assert(all[k] == place);
            } else {
                assert(all[some.len() as int] == place);
            }
        }
    }
}

/// Whether range `i` is at this place and has the address in it, and none in front
/// of it has.
pub open spec fn is_first_with(
    ranges: Seq<MemoryRange>,
    address: u64,
    place: (u64, u64),
    i: int,
) -> bool {
    &&& 0 <= i < ranges.len()
    &&& is_place(ranges[i], place)
    &&& place.0 <= address < place.0 + place.1
    &&& forall|k: int| 0 <= k < i ==> !has_address(#[trigger] ranges[k], address)
}

/// Whether an address is in a range.
pub open spec fn has_address(range: MemoryRange, address: u64) -> bool {
    range.address <= address < range.address + range.size
}

/// The region of an address is the first range that it is in.
pub proof fn an_address_is_in_its_region(ranges: Seq<MemoryRange>, address: u64)
    ensures
        region_of(ranges, address) is Some ==> exists|i: int| #[trigger]
            is_first_with(ranges, address, region_of(ranges, address)->0, i),
        region_of(ranges, address) is None ==> forall|k: int|
            0 <= k < ranges.len() ==> !has_address(#[trigger] ranges[k], address),
    decreases ranges.len(),
{
    if ranges.len() > 0 {
        if ranges[0].spans(address) {
            let place = (ranges[0].address, ranges[0].size);
            assert(region_of(ranges, address) == Some(place));
            assert(is_place(ranges[0], place));
            assert(is_first_with(ranges, address, place, 0));
            assert(region_of(ranges, address)->0 == place);
            assert(is_first_with(ranges, address, region_of(ranges, address)->0, 0));
        } else {
            let rest = ranges.drop_first();
            assert(region_of(ranges, address) == region_of(rest, address));
            an_address_is_in_its_region(rest, address);
            assert(!has_address(ranges[0], address));
            match region_of(rest, address) {
                Some(place) => {
                    assert(region_of(rest, address)->0 == place);
                    let i = choose|i: int| #[trigger] is_first_with(rest, address, place, i);
                    assert forall|k: int| 0 <= k < i + 1 implies !has_address(
                        #[trigger] ranges[k],
                        address,
                    ) by {
                        if k > 0 {
                            assert(rest[k - 1] == ranges[k]);
                        }
                    }
                    assert(is_first_with(ranges, address, place, i + 1));
                    assert(is_first_with(ranges, address, region_of(ranges, address)->0, i + 1));
                },
                None => {
                    assert forall|k: int| 0 <= k < ranges.len() implies !has_address(
                        #[trigger] ranges[k],
                        address,
                    ) by {
                        if k > 0 {
                            assert(rest[k - 1] == ranges[k]);
                        }
                    }
                },
            }
        }
    }
}

proof fn lemma_gathers_on<M: Memory>(
    memory: &M,
    ranges: Seq<(u64, u64)>,
    walk: RangeWalk,
    entries: Seq<u64>,
    left: int,
)
    requires
        walk.offset <= walk.size,
    ensures
        ({
            let (after, _, covered) = gathered(memory, ranges, walk, entries, left);
            &&& walk.offset <= after.offset <= after.size
            &&& after.size == walk.size
            &&& after.base == walk.base
            &&& covered || after.offset > walk.offset
        }),
    decreases walk.size - walk.offset,
{
    if walk.ahead() > 0 && left > 8 * walk.ahead() {
        let next = walk.passed(memory);
        lemma_gathers_on(
            memory,
            ranges,
            next,
            entries + entries_in(ranges, walk.words(memory)),
            left - 8 * walk.ahead(),
        );
    }
}

proof fn lemma_reaches_on(entries: Seq<u64>, at: int, left: int)
    requires
        0 <= at < entries.len(),
    ensures
        reach(entries, at, left).0 > at,
{
    let window = entries[at] as int / 0x1_0000;
    let stop = run_end(entries, at + 1, window);
    lemma_run_end(entries, at + 1, window);
    if left > 0x1_0000 {
        lemma_reach(entries, stop, left - 0x1_0000);
    }
}

/// A search that is not over has come further: along the table, then from
/// gathering to looking, then along the entries.
pub proof fn a_search_goes_on<M: Memory>(
    memory: &M,
    search: TableSearch,
    budget: int,
    after: TableSearch,
)
    requires
        search.wf(),
        search.stepped(memory, budget, after, Progress::Pending),
    ensures
        !search.sorted && !after.sorted ==> search.walk.offset < after.walk.offset
            <= search.walk.size,
        search.sorted ==> after.sorted && search.at < after.at <= search.entries@.len(),
{
    if search.sorted {
        if search.at < search.entries@.len() {
            lemma_reaches_on(search.entries@, search.at as int, budget);
        }
        lemma_reach(search.entries@, search.at as int, budget);
    } else {
        lemma_gathers_on(memory, search.ranges@, search.walk, search.entries@, budget);
    }
}

/// A table that is there is searched from its base on, as far as the range that
/// it is in goes now; where there is none, or its range is gone, the whole heap is
/// swept, if that is allowed.
pub proof fn a_search_covers_the_table_as_it_is(
    locate: Locate,
    ranges: Seq<MemoryRange>,
    table: Option<ReferenceTable>,
    table_after: Option<ReferenceTable>,
    said: Seq<Note>,
)
    requires
        locate.begun(ranges, table, table_after, said),
    ensures
        table matches Some(t) ==> {
            &&& table_after matches Some(after) && after.base == t.base && after.misses == t.misses
            &&& region_of(ranges, t.base) matches Some(place) ==> {
                let size = if place.1 < 0x400_0000 {
                    place.1
                } else {
                    0x400_0000
                };
                &&& table_after matches Some(after) && after.seen == size
                &&& locate.stage matches Stage::Table(search) && search.walk.base == t.base
                    && search.walk.size == size && search.walk.offset == 0 && search.vtable
                    == locate.class.vtable && search.validator == locate.class.validator
                    && search.limit == locate.limit
            }
            &&& region_of(ranges, t.base) is None ==> (locate.stage is Sweep <==> locate.may_sweep)
        },
        table is None ==> table_after is None && (locate.stage is Sweep <==> locate.may_sweep),
{
}

/// A table that answers has missed nothing in a row; one that a sweep had to
/// stand in for has missed once more, where the sweep found something.
pub proof fn a_table_is_judged_by_its_answers<M: Memory>(
    locate: Locate,
    memory: &M,
    ranges: Seq<MemoryRange>,
    table: ReferenceTable,
    after: Locate,
    table_after: Option<ReferenceTable>,
    found: Found,
    said: Seq<Note>,
)
    requires
        locate.stepped(
            memory,
            ranges,
            Some(table),
            after,
            table_after,
            Located::Done(found),
            said,
        ),
        table.misses < 0xFFFF_FFFF,
    ensures
        table_after matches Some(kept) && kept.base == table.base && kept.seen == table.seen,
        locate.stage is Sweep && found.first() is Some ==> (table_after matches Some(kept)
            && kept.misses == table.misses + 1),
        found.first() is None ==> table_after == Some(table),
        !locate.may_sweep && locate.stage !is Sweep ==> table_after == Some(table),
{
}

/// Telling the table apart begins with every range that holds the anchor, but for
/// its own, and with the range that the anchor's class is in.
pub proof fn telling_apart_begins_with_the_holders<M: Memory>(
    memory: &M,
    ranges: Seq<MemoryRange>,
    anchor: u64,
    holders: Seq<(u64, u64)>,
    identify: Option<Identify>,
    vtable: u64,
    holder: (u64, u64),
)
    requires
        Identify::begun(memory, ranges, anchor, holders, identify),
        vtable != 0,
        has_word(memory, anchor as int, vtable),
    ensures
        identify is Some <==> region_of(ranges, vtable) is Some,
        identify matches Some(begun) ==> {
            &&& region_of(ranges, vtable) == Some(begun.metadata)
            &&& begun.candidates@.contains(holder) <==> holders.contains(holder) && !(holder.0
                <= anchor < holder.0 + holder.1)
            &&& begun.index == 0
            &&& are_readable(memory, begun.candidates@) ==> is_telling(memory, begun)
        },
{
    what_is_there_is_read(memory, anchor as int, vtable, 0, 0);
    the_anchors_own_range_is_no_candidate(holders, anchor, holder);
    if let Some(begun) = identify {
        if begun.candidates@.len() > 0 {
            assert(headers_from(memory, begun.metadata, begun.walk.base, 0) == 0);
        }
    }
}

} // verus!
