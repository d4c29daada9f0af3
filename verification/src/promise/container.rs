//! The container of the loaded game, and every service in it.
use vstd::bytes::{
    lemma_auto_spec_u64_to_from_le_bytes, spec_u64_from_le_bytes, spec_u64_to_le_bytes,
};
use vstd::prelude::*;

use crate::memory::{pointer_at, word_of, Memory};
use crate::note::Note;
use crate::promise::reading::{
    has_word, is_honest, top, what_is_read_is_there, what_is_there_is_read,
};
use crate::singletons::{
    chunk_end, chunk_read, identified, instance_of, sought, Layout, Pick, Picking, Refresh, Retake,
    Sought, Wanted,
};

verus! {

/// Whether a container's repository leads to an array of these words.
pub open spec fn has_array<M: Memory>(
    memory: &M,
    layout: Layout,
    repository: u64,
    words: Seq<u64>,
) -> bool {
    exists|listener: u64, array: u64| #[trigger]
        leads_to_array(memory, layout, repository, listener, array, words)
}

/// The same, by the way of a listener and an array.
pub open spec fn leads_to_array<M: Memory>(
    memory: &M,
    layout: Layout,
    repository: u64,
    listener: u64,
    array: u64,
    words: Seq<u64>,
) -> bool {
    &&& listener != 0 && array != 0 && words.len() <= 8192
    &&& has_word(memory, repository + layout.listener_offset, listener)
    &&& has_word(memory, listener + layout.all_singletons_offset, array)
    &&& has_word(memory, array + 0x18, words.len() as u64)
    &&& array + 0x20 < top()
    &&& memory.contents((array + 0x20) as u64, 8 * words.len()) matches Some(bytes) && bytes.len()
        == 8 * words.len() && forall|i: int|
        0 <= i < words.len() ==> bytes.subrange(8 * i, 8 * i + 8) == spec_u64_to_le_bytes(
            #[trigger] words[i],
        )
}

/// The references a container holds are the words of its array that are not null,
/// all of them and in order.
pub proof fn a_container_holds_its_array<M: Memory>(
    memory: &M,
    layout: Layout,
    repository: u64,
    words: Seq<u64>,
)
    requires
        has_array(memory, layout, repository, words),
    ensures
        layout.held(memory, repository) == Some(words.filter(|word: u64| word != 0)),
{
    let (listener, array) = choose|listener: u64, array: u64| #[trigger]
        leads_to_array(memory, layout, repository, listener, array, words);
    let n = words.len();
    what_is_there_is_read(memory, repository + layout.listener_offset, listener, 0, 0);
    what_is_there_is_read(memory, listener + layout.all_singletons_offset, array, 0, 0);
    what_is_there_is_read(memory, array + 0x18, n as u64, 0, 0);
    lemma_auto_spec_u64_to_from_le_bytes();
    let bytes = memory.contents((array + 0x20) as u64, 8 * n)->0;
    assert((8 * (n as int)) as nat == 8 * n);
    let read = Seq::new(n, |i: int| word_of(bytes, i));
    assert(read =~= words) by {
        assert forall|i: int| 0 <= i < n implies read[i] == words[i] by {
            assert(bytes.subrange(8 * i, 8 * i + 8) == spec_u64_to_le_bytes(words[i]));
            assert(spec_u64_to_le_bytes(words[i]).len() == 8);
            assert(spec_u64_from_le_bytes(spec_u64_to_le_bytes(words[i])) == words[i]);
        }
    }
}

/// Whether the object at `object` begins with the class word `vtable`.
pub open spec fn is_of<M: Memory>(memory: &M, object: u64, vtable: u64) -> bool {
    vtable != 0 && has_word(memory, object as int, vtable)
}

/// Whether `entries` are the objects of `references` whose class reads, each
/// behind its class word: in the order they come, none left out, and nothing
/// else.
pub open spec fn is_roll<M: Memory>(
    memory: &M,
    references: Seq<u64>,
    entries: Seq<(u64, u64)>,
) -> bool {
    exists|places: Seq<int>| #[trigger] is_roll_at(memory, references, entries, places)
}

/// The same, with the places that the entries have among the references.
pub open spec fn is_roll_at<M: Memory>(
    memory: &M,
    references: Seq<u64>,
    entries: Seq<(u64, u64)>,
    places: Seq<int>,
) -> bool {
    &&& places.len() == entries.len()
    &&& forall|k: int|
        0 <= k < places.len() ==> 0 <= #[trigger] places[k] < references.len() && entries[k].1
            == references[places[k]] && is_of(memory, entries[k].1, entries[k].0)
    &&& forall|k: int, l: int|
        0 <= k < l < places.len() ==> #[trigger] places[k] < #[trigger] places[l]
    &&& forall|i: int, vtable: u64|
        0 <= i < references.len() && #[trigger] is_of(memory, references[i], vtable)
            ==> places.contains(i)
}

proof fn lemma_roll<M: Memory>(memory: &M, references: Seq<u64>)
    requires
        is_honest(memory),
    ensures
        is_roll(memory, references, identified(memory, references)),
    decreases references.len(),
{
    if references.len() == 0 {
        assert(is_roll_at(memory, references, identified(memory, references), Seq::empty()));
    } else {
        let init = references.drop_last();
        let last = references.last();
        let n = references.len() - 1;
        lemma_roll(memory, init);
        let before = identified(memory, init);
        let spots = choose|places: Seq<int>| #[trigger]
            is_roll_at(memory, init, before, places);
        let entries = identified(memory, references);
        what_is_read_is_there(memory, last);
        let places = match pointer_at(memory, last) {
            Some(_) => spots.push(n),
            None => spots,
        };
        assert forall|k: int| 0 <= k < places.len() implies 0 <= #[trigger] places[k]
            < references.len() && entries[k].1 == references[places[k]] && is_of(
            memory,
            entries[k].1,
            entries[k].0,
        ) by {
            if k < spots.len() {
                assert(places[k] == spots[k]);
                assert(entries[k] == before[k]);
                assert(init[spots[k]] == references[spots[k]]);
            }
        }
        assert forall|i: int, vtable: u64|
            0 <= i < references.len() && #[trigger] is_of(
                memory,
                references[i],
                vtable,
            ) implies places.contains(i) by {
            if i < n {
                assert(is_of(memory, init[i], vtable));
                let k = spots.index_of(i);
                assert(places[k] == i);
            } else {
                what_is_there_is_read(memory, last as int, vtable, 0, 0);
                assert(places[places.len() - 1] == n);
            }
        }
        assert forall|k: int, l: int| 0 <= k < l < places.len() implies #[trigger] places[k]
            < #[trigger] places[l] by {
            if l < spots.len() {
                assert(spots[k] < spots[l]);
            } else {
                assert(places[k] == spots[k]);
            }
        }
        assert(is_roll_at(memory, references, entries, places));
    }
}

proof fn lemma_identified<M: Memory>(memory: &M, a: Seq<u64>, b: Seq<u64>)
    ensures
        identified(memory, a + b) == identified(memory, a) + identified(memory, b),
    decreases b.len(),
{
    if b.len() == 0 {
        assert(a + b =~= a);
        assert(identified(memory, a) + identified(memory, b) =~= identified(memory, a));
    } else {
        lemma_identified(memory, a, b.drop_last());
        assert((a + b).drop_last() =~= a + b.drop_last());
        assert(identified(memory, a + b) =~= identified(memory, a) + identified(memory, b));
    }
}

/// As far as the references have been gone through, the entries are what they
/// came to.
spec fn is_so_far<M: Memory>(memory: &M, retake: Retake) -> bool {
    &&& 0 <= retake.1 <= retake.0.len()
    &&& retake.2 == identified(memory, retake.0.take(retake.1))
}

proof fn lemma_chunk<M: Memory>(memory: &M, retake: Retake)
    requires
        is_so_far(memory, retake),
    ensures
        is_so_far(memory, chunk_read(memory, retake)),
        chunk_read(memory, retake).0 == retake.0,
{
    let (references, index, entries) = retake;
    let end = chunk_end(references.len(), index);
    lemma_identified(memory, references.take(index), references.subrange(index, end));
    assert(references.take(index) + references.subrange(index, end) =~= references.take(end));
}

/// Refreshes, each a chunk on from the one before, until none is left.
pub open spec fn is_refreshed<M: Memory>(memory: &M, run: Seq<Refresh>) -> bool {
    &&& run.len() > 0
    &&& forall|i: int, j: int|
        0 <= i && j == i + 1 && j < run.len() ==> (#[trigger] run[i]).index
            < run[i].references@.len() && (#[trigger] run[j])@ == chunk_read(memory, run[i]@)
    &&& run.last().index >= run.last().references@.len()
}

proof fn lemma_refreshed<M: Memory>(memory: &M, run: Seq<Refresh>, n: int)
    requires
        is_refreshed(memory, run),
        run[0]@.1 == 0,
        run[0]@.2.len() == 0,
        0 <= n < run.len(),
    ensures
        is_so_far(memory, run[n]@),
        run[n]@.0 == run[0]@.0,
    decreases n,
{
    if n == 0 {
        assert(run[0]@.0.take(0) =~= Seq::<u64>::empty());
        assert(run[0]@.2 =~= Seq::<(u64, u64)>::empty());
    } else {
        lemma_refreshed(memory, run, n - 1);
        assert(run[n]@ == chunk_read(memory, run[n - 1]@));
        lemma_chunk(memory, run[n - 1]@);
    }
}

/// However many chunks it takes, a refresh ends with every reference whose class
/// reads, behind its class word, in order and with nothing else.
pub proof fn a_refresh_reads_every_reference<M: Memory>(memory: &M, run: Seq<Refresh>)
    requires
        is_honest(memory),
        is_refreshed(memory, run),
        run[0]@.1 == 0,
        run[0]@.2.len() == 0,
    ensures
        is_roll(memory, run[0].references@, run.last().entries@),
{
    lemma_refreshed(memory, run, run.len() - 1);
    let last = run.last()@;
    assert(last.0.take(last.1) =~= last.0);
    lemma_roll(memory, last.0);
}

/// A lookup gives the first entry of the class, and nothing only where there is
/// none.
pub proof fn a_lookup_gives_the_first(entries: Seq<(u64, u64)>, vtable: u64)
    ensures
        instance_of(entries, vtable) matches Some(instance) ==> exists|k: int|
            0 <= k < entries.len() && #[trigger] entries[k] == (vtable, instance) && forall|j: int|
                0 <= j < k ==> (#[trigger] entries[j]).0 != vtable,
        instance_of(entries, vtable) is None ==> forall|k: int|
            0 <= k < entries.len() ==> (#[trigger] entries[k]).0 != vtable,
    decreases entries.len(),
{
    if entries.len() > 0 && entries[0].0 != vtable {
        let rest = entries.drop_first();
        a_lookup_gives_the_first(rest, vtable);
        assert(instance_of(entries, vtable) == instance_of(rest, vtable));
        match instance_of(rest, vtable) {
            Some(instance) => {
                let k = choose|k: int|
                    0 <= k < rest.len() && #[trigger] rest[k] == (vtable, instance) && forall|
                        j: int,
                    |
                        0 <= j < k ==> (#[trigger] rest[j]).0 != vtable;
                assert(entries[k + 1] == (vtable, instance));
                assert forall|j: int| 0 <= j < k + 1 implies (#[trigger] entries[j]).0 != vtable by {
                    if j > 0 {
                        assert(rest[j - 1] == entries[j]);
                    }
                }
            },
            None => {
                assert forall|k: int| 0 <= k < entries.len() implies (#[trigger] entries[k]).0
                    != vtable by {
                    if k > 0 {
                        assert(rest[k - 1] == entries[k]);
                    }
                }
            },
        }
    } else if entries.len() > 0 {
        assert(entries[0] == (vtable, entries[0].1));
    }
}

/// Every service a container holds is found in it: once its contents have been
/// read, looking up the class of any object in the array gives an object of that
/// class.
pub proof fn every_service_is_found<M: Memory>(
    memory: &M,
    layout: Layout,
    repository: u64,
    words: Seq<u64>,
    run: Seq<Refresh>,
    i: int,
    vtable: u64,
)
    requires
        is_honest(memory),
        has_array(memory, layout, repository, words),
        is_refreshed(memory, run),
        run[0]@ == (layout.held(memory, repository)->0, 0int, Seq::<(u64, u64)>::empty()),
        0 <= i < words.len(),
        words[i] != 0,
        is_of(memory, words[i], vtable),
    ensures
        instance_of(run.last().entries@, vtable) matches Some(instance) && words.contains(instance)
            && is_of(memory, instance, vtable),
{
    broadcast use vstd::seq_lib::group_seq_properties;

    a_container_holds_its_array(memory, layout, repository, words);
    a_refresh_reads_every_reference(memory, run);
    let references = run[0].references@;
    let entries = run.last().entries@;
    let present = |word: u64| word != 0;
    assert(references == words.filter(present));
    words.lemma_filter_contains(present, i);
    assert(references.contains(words[i]));
    let r = references.index_of(words[i]);
    assert(is_of(memory, references[r], vtable));
    let places = choose|places: Seq<int>| #[trigger]
        is_roll_at(memory, references, entries, places);
    assert(places.contains(r));
    let k = places.index_of(r);
    assert(is_of(memory, entries[k].1, entries[k].0));
    what_is_there_is_read(memory, words[i] as int, vtable, 0, 0);
    what_is_there_is_read(memory, words[i] as int, entries[k].0, 0, 0);
    assert(entries[k].0 == vtable);
    a_lookup_gives_the_first(entries, vtable);
    let instance = instance_of(entries, vtable)->0;
    let j = choose|j: int|
        0 <= j < entries.len() && #[trigger] entries[j] == (vtable, instance) && forall|l: int|
            0 <= l < j ==> (#[trigger] entries[l]).0 != vtable;
    assert(references[places[j]] == instance);
    lemma_filter_from(words, places[j]);
}

proof fn lemma_filter_from(words: Seq<u64>, i: int)
    requires
        0 <= i < words.filter(|word: u64| word != 0).len(),
    ensures
        words.contains(words.filter(|word: u64| word != 0)[i]),
    decreases words.len(),
{
    reveal(Seq::filter);
    let some = words.filter(|word: u64| word != 0);
    let init = words.drop_last();
    let rest = init.filter(|word: u64| word != 0);
    if words.len() > 0 {
        if i < rest.len() {
            lemma_filter_from(init, i);
            let k = init.index_of(rest[i]);
            assert(words[k] == rest[i]);
            assert(some[i] == rest[i]);
        } else {
            assert(words[words.len() - 1] == some[i]);
        }
    }
}

/// Whether the container at `repository` is the one looked for: not the one just
/// left, and one that holds an object of the required class.
pub open spec fn is_wanted<M: Memory>(memory: &M, wanted: Wanted, repository: u64) -> bool {
    &&& wanted.skip != Some(repository)
    &&& wanted.layout.held(memory, repository) matches Some(references) && exists|i: int|
        0 <= i < references.len() && #[trigger] is_of(memory, references[i], wanted.required)
}

/// Whether none of the first `n` candidates is the one looked for.
pub open spec fn are_unwanted<M: Memory>(
    memory: &M,
    wanted: Wanted,
    candidates: Seq<u64>,
    n: int,
) -> bool {
    forall|i: int|
        0 <= i < n && i < candidates.len() ==> !is_wanted(memory, wanted, #[trigger] candidates[i])
}

proof fn lemma_has_required<M: Memory>(memory: &M, references: Seq<u64>, required: u64)
    requires
        is_honest(memory),
    ensures
        instance_of(identified(memory, references), required) is Some <==> exists|i: int|
            0 <= i < references.len() && #[trigger] is_of(memory, references[i], required),
{
    let entries = identified(memory, references);
    lemma_roll(memory, references);
    let places = choose|places: Seq<int>| #[trigger]
        is_roll_at(memory, references, entries, places);
    a_lookup_gives_the_first(entries, required);
    if instance_of(entries, required) is Some {
        let instance = instance_of(entries, required)->0;
        let k = choose|k: int|
            0 <= k < entries.len() && #[trigger] entries[k] == (required, instance) && forall|j: int|
                0 <= j < k ==> (#[trigger] entries[j]).0 != required;
        assert(is_of(memory, references[places[k]], required));
    }
    if exists|i: int|
        0 <= i < references.len() && #[trigger] is_of(memory, references[i], required) {
        let i = choose|i: int|
            0 <= i < references.len() && #[trigger] is_of(memory, references[i], required);
        assert(places.contains(i));
        let k = places.index_of(i);
        assert(is_of(memory, entries[k].1, entries[k].0));
        what_is_there_is_read(memory, references[i] as int, required, 0, 0);
        what_is_there_is_read(memory, references[i] as int, entries[k].0, 0, 0);
        assert(entries[k].0 == required);
    }
}

/// Where going through the candidates has got to without missing one.
spec fn is_picking<M: Memory>(
    memory: &M,
    wanted: Wanted,
    candidates: Seq<u64>,
    index: int,
    retake: Option<Retake>,
) -> bool {
    &&& 0 <= index
    &&& are_unwanted(memory, wanted, candidates, index)
    &&& retake matches Some(retake) ==> index < candidates.len() && is_so_far(memory, retake)
        && wanted.layout.held(memory, candidates[index]) == Some(retake.0) && wanted.skip != Some(
        candidates[index],
    )
}

proof fn lemma_sought<M: Memory>(
    memory: &M,
    wanted: Wanted,
    candidates: Seq<u64>,
    index: int,
    retake: Option<Retake>,
)
    requires
        is_honest(memory),
        is_picking(memory, wanted, candidates, index, retake),
    ensures
        match sought(memory, wanted, candidates, index, retake) {
            Sought::Reading(next, read) => is_picking(memory, wanted, candidates, next, Some(read)),
            Sought::Is(found, entries) => {
                &&& 0 <= found < candidates.len()
                &&& are_unwanted(memory, wanted, candidates, found)
                &&& is_wanted(memory, wanted, candidates[found])
                &&& is_roll(
                    memory,
                    wanted.layout.held(memory, candidates[found])->0,
                    entries,
                )
            },
            Sought::NoneOfThem => are_unwanted(
                memory,
                wanted,
                candidates,
                candidates.len() as int,
            ),
        },
    decreases candidates.len() - index,
{
    if index < candidates.len() {
        let here = candidates[index];
        match retake {
            Some(retake) => {
                if retake.1 < retake.0.len() {
                    lemma_chunk(memory, retake);
                } else {
                    assert(retake.0.take(retake.1) =~= retake.0);
                    lemma_has_required(memory, retake.0, wanted.required);
                    if instance_of(retake.2, wanted.required) is Some {
                        lemma_roll(memory, retake.0);
                    } else {
                        assert(!is_wanted(memory, wanted, here));
                        lemma_sought(memory, wanted, candidates, index + 1, None);
                    }
                }
            },
            None => {
                let held = wanted.layout.held(memory, here);
                if wanted.skip == Some(here) || held is None || held->0.len() == 0 {
                    assert(!is_wanted(memory, wanted, here));
                    lemma_sought(memory, wanted, candidates, index + 1, None);
                } else {
                    let fresh: Retake = (held->0, 0int, Seq::<(u64, u64)>::empty());
                    assert(fresh.0.take(0) =~= Seq::<u64>::empty());
                    lemma_chunk(memory, fresh);
                }
            },
        }
    }
}

/// Candidates gone through tick by tick, until one is picked or none is left.
pub open spec fn is_picked<M: Memory>(
    memory: &M,
    wanted: Wanted,
    picks: Seq<Pick>,
    picking: Picking,
) -> bool {
    &&& picks.len() > 1
    &&& picks[0].index == 0 && picks[0].refresh is None
    &&& picking !is Pending
    &&& forall|i: int, j: int|
        0 <= i && j == i + 1 && j < picks.len() ==> goes_to(
            memory,
            wanted,
            #[trigger] picks[i],
            #[trigger] picks[j],
            if j == picks.len() - 1 {
                picking
            } else {
                Picking::Pending
            },
        )
}

/// Whether a tick of going through candidates leads from one place to another.
pub open spec fn goes_to<M: Memory>(
    memory: &M,
    wanted: Wanted,
    from: Pick,
    to: Pick,
    picking: Picking,
) -> bool {
    exists|said: Seq<Note>| #[trigger] from.stepped(memory, wanted, to, picking, said)
}

proof fn lemma_picked<M: Memory>(
    memory: &M,
    wanted: Wanted,
    picks: Seq<Pick>,
    picking: Picking,
    n: int,
)
    requires
        is_honest(memory),
        is_picked(memory, wanted, picks, picking),
        0 <= n < picks.len() - 1,
    ensures
        picks[n].candidates@ == picks[0].candidates@,
        is_picking(memory, wanted, picks[n].candidates@, picks[n].index as int, picks[n].retake()),
    decreases n,
{
    if n > 0 {
        lemma_picked(memory, wanted, picks, picking, n - 1);
        let before = picks[n - 1];
        assert(goes_to(memory, wanted, before, picks[n], Picking::Pending));
        let said = choose|said: Seq<Note>| #[trigger]
            before.stepped(memory, wanted, picks[n], Picking::Pending, said);
        lemma_sought(
            memory,
            wanted,
            before.candidates@,
            before.index as int,
            before.retake(),
        );
    }
}

/// The container that is picked is the first, in the order they were found, that
/// is not the one just left and holds the clock, with everything in it; and none
/// is picked only where there is none.
pub proof fn the_first_container_with_the_clock_is_picked<M: Memory>(
    memory: &M,
    wanted: Wanted,
    picks: Seq<Pick>,
    picking: Picking,
)
    requires
        is_honest(memory),
        is_picked(memory, wanted, picks, picking),
    ensures
        picking matches Picking::Picked(registry) ==> exists|i: int|
            0 <= i < picks[0].candidates@.len() && #[trigger] picks[0].candidates@[i]
                == registry.repository && is_wanted(memory, wanted, registry.repository)
                && are_unwanted(memory, wanted, picks[0].candidates@, i) && is_roll(
                memory,
                wanted.layout.held(memory, registry.repository)->0,
                registry.entries@,
            ),
        picking is NoneOfThem ==> are_unwanted(
            memory,
            wanted,
            picks[0].candidates@,
            picks[0].candidates@.len() as int,
        ),
{
    let n = picks.len() - 2;
    lemma_picked(memory, wanted, picks, picking, n);
    let last = picks[n];
    assert(goes_to(memory, wanted, last, picks[n + 1], picking));
    let said = choose|said: Seq<Note>| #[trigger]
        last.stepped(memory, wanted, picks[n + 1], picking, said);
    lemma_sought(memory, wanted, last.candidates@, last.index as int, last.retake());
}

/// A refresh goes on until it has come to the last reference.
pub proof fn a_refresh_goes_on<M: Memory>(memory: &M, retake: Retake)
    requires
        0 <= retake.1 < retake.0.len(),
    ensures
        retake.1 < chunk_read(memory, retake).1 <= retake.0.len(),
        chunk_read(memory, retake).0 == retake.0,
{
}

/// A container whose array is longer than any game's is not one, and neither is
/// one that leads nowhere.
pub proof fn what_is_no_container_holds_nothing<M: Memory>(
    memory: &M,
    layout: Layout,
    repository: u64,
    listener: u64,
    array: u64,
    length: u64,
)
    requires
        has_word(memory, repository + layout.listener_offset, listener),
        listener == 0 || has_word(memory, listener + layout.all_singletons_offset, array),
        listener == 0 || array == 0 || has_word(memory, array + 0x18, length) && length > 8192,
    ensures
        layout.held(memory, repository) is None,
{
    what_is_there_is_read(memory, repository + layout.listener_offset, listener, 0, 0);
    what_is_there_is_read(memory, listener + layout.all_singletons_offset, array, 0, 0);
    what_is_there_is_read(memory, array + 0x18, length, 0, 0);
}

} // verus!
