//! Lists: that nothing in them is lost, doubled or taken for something else.
use vstd::prelude::*;

use crate::capture::{parts_upto, piece_start, with_piece};
use crate::drive::settings_of;
use crate::live::{goes_on, modules_of, ranges_of, Mapping, ModuleView};
use crate::memory::{is_coherent, Memory, MemoryRange};
use crate::metadata::{Class, Module};
use crate::probe::{
    all_resolved, classes_lost, dependence, fields_lost, fields_missing, is_there, SUBJECTS,
};
use crate::promise::reading::{has_byte, is_honest, top};
use crate::record::{games, last_value};
use crate::requirement::{catalogued, state_from, CATALOGUE};
use crate::world::{setting_in, World};

verus! {

/// What a setting is under its key, where that is set, and otherwise: on.
pub open spec fn is_under<M: Memory>(world: World<M>, key: Seq<char>) -> bool {
    setting_in(world.settings@, key) != Some(false)
}

/// Each setting is read under its own key, and is on unless it was turned off.
pub proof fn each_setting_is_read_under_its_own_key<M: Memory>(world: World<M>)
    ensures
        settings_of(world).start <==> is_under(world, "start"@),
        settings_of(world).forester <==> is_under(world, "forester"@),
        settings_of(world).gear_workshop <==> is_under(world, "gear_workshop"@),
        settings_of(world).tappers_shack <==> is_under(world, "tappers_shack"@),
        settings_of(world).advanced_science <==> is_under(world, "advanced_science"@),
        settings_of(world).smelter_woodworkshop <==> is_under(world, "smelter_woodworkshop"@),
        settings_of(world).unlock_wonder <==> is_under(world, "unlock_wonder"@),
        settings_of(world).congratulations_screen <==> is_under(world, "congratulations_screen"@),
{
}

/// A setting's value is that of the first entry under its key.
pub proof fn a_setting_is_the_first_under_its_key(
    settings: Seq<(String, bool)>,
    key: Seq<char>,
    i: int,
)
    requires
        0 <= i < settings.len(),
        settings[i].0@ == key,
        forall|k: int| 0 <= k < i ==> (#[trigger] settings[k]).0@ != key,
    ensures
        setting_in(settings, key) == Some(settings[i].1),
    decreases i,
{
    if i > 0 {
        let rest = settings.drop_first();
        assert(settings[0].0@ != key);
        assert forall|k: int| 0 <= k < i - 1 implies (#[trigger] rest[k]).0@ != key by {
            assert(rest[k] == settings[k + 1]);
        }
        a_setting_is_the_first_under_its_key(rest, key, i - 1);
    }
}

/// A key that is set more than once has the last value that it was given.
pub proof fn the_last_value_stands(settings: Seq<(Seq<char>, bool)>, key: Seq<char>, n: int, i: int)
    requires
        0 <= i < n <= settings.len(),
        settings[i].0 == key,
        forall|k: int| i < k < n ==> (#[trigger] settings[k]).0 != key,
    ensures
        last_value(settings, key, n) == Some(settings[i].1),
    decreases n,
{
    if n - 1 > i {
        assert(settings[n - 1].0 != key);
        the_last_value_stands(settings, key, n - 1, i);
    }
}

proof fn lemma_fields_missing(class: Class, fields: Seq<Seq<char>>)
    ensures
        fields_missing(class, fields) == 0 <==> forall|i: int|
            0 <= i < fields.len() ==> class.offset(#[trigger] fields[i]) is Some,
    decreases fields.len(),
{
    if fields.len() > 0 {
        let init = fields.drop_last();
        lemma_fields_missing(class, init);
        assert(fields[fields.len() - 1] == fields.last());
        if fields_missing(class, fields) == 0 {
            assert forall|i: int| 0 <= i < fields.len() implies class.offset(
                #[trigger] fields[i],
            ) is Some by {
                if i < init.len() {
                    assert(init[i] == fields[i]);
                }
            }
        }
        if forall|i: int|
            0 <= i < fields.len() ==> class.offset(#[trigger] fields[i]) is Some {
            assert forall|i: int| 0 <= i < init.len() implies class.offset(
                #[trigger] init[i],
            ) is Some by {
                assert(init[i] == fields[i]);
            }
        }
    }
}

/// Whether a class that is depended on is there, with all its fields.
pub open spec fn is_all_there(module: Module, i: int) -> bool {
    let subject = dependence(i);
    &&& module.has_image(subject.image)
    &&& module.named(subject.image, subject.class) matches Some(class) && forall|k: int|
        0 <= k < subject.fields.len() ==> class.offset(#[trigger] subject.fields[k]) is Some
}

proof fn lemma_lost(module: Module, n: int)
    requires
        0 <= n,
    ensures
        classes_lost(module, n) == 0 && fields_lost(module, n) == 0 <==> forall|i: int|
            0 <= i < n ==> #[trigger] is_all_there(module, i),
    decreases n,
{
    if n > 0 {
        lemma_lost(module, n - 1);
        let subject = dependence(n - 1);
        if is_there(module, subject) {
            lemma_fields_missing(
                module.named(subject.image, subject.class)->0,
                subject.fields,
            );
        }
        assert(is_all_there(module, n - 1) <==> is_there(module, subject) && fields_missing(
            module.named(subject.image, subject.class)->0,
            subject.fields,
        ) == 0);
    }
}

/// The game is as it is depended on just where every class is there, with every
/// field.
pub proof fn the_game_is_known_where_every_name_is(module: Module)
    ensures
        all_resolved(module) <==> forall|i: int|
            0 <= i < SUBJECTS ==> #[trigger] is_all_there(module, i),
{
    lemma_lost(module, SUBJECTS as int);
}

/// A state that is found by its name has it, and every state that there is can be
/// found.
pub proof fn a_state_is_found_by_its_name(id: Seq<char>, i: int)
    requires
        0 <= i <= CATALOGUE,
    ensures
        state_from(id, i) matches Some(state) ==> state.id == id,
        state_from(id, i) is None <==> forall|k: int|
            i <= k < CATALOGUE ==> (#[trigger] catalogued(k)).id != id,
    decreases CATALOGUE - i,
{
    if i < CATALOGUE {
        a_state_is_found_by_its_name(id, i + 1);
        let here = catalogued(i);
    }
}

/// The processes that are the game are each told once, and no others.
pub proof fn each_game_is_told_once(candidates: Seq<(u32, bool)>, n: int, pid: u32)
    requires
        0 <= n <= candidates.len(),
    ensures
        games(candidates, n).contains(pid) <==> exists|i: int|
            0 <= i < n && #[trigger] candidates[i] == (pid, true),
        games(candidates, n).no_duplicates(),
    decreases n,
{
    if n > 0 {
        each_game_is_told_once(candidates, n - 1, pid);
        let (last, is_game) = candidates[n - 1];
        each_game_is_told_once(candidates, n - 1, last);
        let some = games(candidates, n - 1);
        let all = games(candidates, n);
        if all.contains(pid) {
            let k = all.index_of(pid);
            if k < some.len() {
                assert(some[k] == pid);
                assert(some.contains(pid));
            } else {
                assert(candidates[n - 1] == (pid, true));
            }
        }
        if exists|i: int| 0 <= i < n && #[trigger] candidates[i] == (pid, true) {
            let i = choose|i: int| 0 <= i < n && #[trigger] candidates[i] == (pid, true);
            if i < n - 1 || some.contains(pid) {
                assert(some.contains(pid));
                assert(all[some.index_of(pid)] == pid);
            } else {
                assert(all[some.len() as int] == pid);
            }
        }
    }
}

/// How much the modules take up.
pub open spec fn taken_up(modules: Seq<ModuleView>) -> int
    decreases modules.len(),
{
    if modules.len() == 0 {
        0
    } else {
        taken_up(modules.drop_last()) + modules.last().size
    }
}

/// How much is mapped from files.
pub open spec fn mapped(mappings: Seq<Mapping>) -> int
    decreases mappings.len(),
{
    if mappings.len() == 0 {
        0
    } else {
        mapped(mappings.drop_last()) + if mappings.last()@.file() is Some {
            mappings.last()@.size as int
        } else {
            0
        }
    }
}

/// Whether a module begins with mapping `i`: it has the mapping's address, path
/// and file name, and the mapping in front is of another file.
pub open spec fn begins_with_mapping(module: ModuleView, mappings: Seq<Mapping>, i: int) -> bool {
    &&& 0 <= i < mappings.len()
    &&& mappings[i]@.file() == Some(module.name)
    &&& mappings[i]@.address == module.address
    &&& mappings[i]@.path == module.path
    &&& i > 0 ==> mappings[i - 1]@.file() != Some(module.name)
}

/// Whether a module begins with one of the mappings.
pub open spec fn begins(module: ModuleView, mappings: Seq<Mapping>) -> bool {
    exists|i: int| #[trigger] begins_with_mapping(module, mappings, i)
}

/// A module is the mappings of one file that follow each other: it begins where
/// the first does, and together the modules take up what is mapped from files.
pub proof fn modules_are_made_of_their_mappings(mappings: Seq<Mapping>)
    ensures
        taken_up(modules_of(mappings)) == mapped(mappings),
        forall|k: int|
            0 <= k < modules_of(mappings).len() ==> begins(
                #[trigger] modules_of(mappings)[k],
                mappings,
            ),
        mappings.len() > 0 && mappings.last()@.file() is Some ==> modules_of(mappings).len() > 0
            && Some(modules_of(mappings).last().name) == mappings.last()@.file(),
    decreases mappings.len(),
{
    if mappings.len() > 0 {
        let init = mappings.drop_last();
        let last = mappings.last()@;
        modules_are_made_of_their_mappings(init);
        let some = modules_of(init);
        let all = modules_of(mappings);
        if goes_on(mappings) {
            assert(init.last() == mappings[mappings.len() - 2]);
            assert(all.drop_last() =~= some.drop_last());
        } else if last.file() is Some {
            assert(all.drop_last() =~= some);
        }
        assert forall|k: int| 0 <= k < all.len() implies begins(#[trigger] all[k], mappings) by {
            if k < some.len() {
                assert(begins(some[k], init));
                let i = choose|i: int| #[trigger] begins_with_mapping(some[k], init, i);
                assert(init[i] == mappings[i]);
                if i > 0 {
                    assert(init[i - 1] == mappings[i - 1]);
                }
                assert(begins_with_mapping(all[k], mappings, i));
            } else {
                let i = mappings.len() - 1;
                assert(mappings[i]@ == last);
                assert(begins_with_mapping(all[k], mappings, i));
            }
        }
    }
}

/// The ranges of a process are its mappings that can be read.
pub proof fn ranges_are_what_can_be_read(mappings: Seq<Mapping>, range: MemoryRange)
    ensures
        ranges_of(mappings).contains(range) <==> exists|i: int|
            0 <= i < mappings.len() && (#[trigger] mappings[i])@.range() == range
                && mappings[i].flags & 1 != 0,
    decreases mappings.len(),
{
    if mappings.len() > 0 {
        let init = mappings.drop_last();
        ranges_are_what_can_be_read(init, range);
        let some = ranges_of(init);
        let all = ranges_of(mappings);
        if all.contains(range) {
            let k = all.index_of(range);
            if k < some.len() {
                assert(some[k] == range);
                assert(some.contains(range));
                let i = choose|i: int|
                    0 <= i < init.len() && (#[trigger] init[i])@.range() == range && init[i].flags
                        & 1 != 0;
                assert(mappings[i] == init[i]);
            } else {
                assert(mappings[mappings.len() - 1] == mappings.last());
            }
        }
        if exists|i: int|
            0 <= i < mappings.len() && (#[trigger] mappings[i])@.range() == range
                && mappings[i].flags & 1 != 0 {
            let i = choose|i: int|
                0 <= i < mappings.len() && (#[trigger] mappings[i])@.range() == range
                    && mappings[i].flags & 1 != 0;
            if i < init.len() {
                assert(init[i] == mappings[i]);
                assert(some.contains(range));
                assert(all[some.index_of(range)] == range);
            } else {
                assert(all[some.len() as int] == range);
            }
        }
    }
}

/// Whether each byte that a part has is the one that memory has there.
pub open spec fn is_true_to<M: Memory>(
    memory: &M,
    part: (MemoryRange, Option<Seq<u8>>),
) -> bool {
    part.1 matches Some(bytes) ==> bytes.len() == part.0.size && forall|k: int|
        0 <= k < bytes.len() ==> has_byte(memory, part.0.address + k, #[trigger] bytes[k])
}

proof fn lemma_piece<M: Memory>(memory: &M, address: u64, len: nat, k: int)
    requires
        is_coherent(memory),
        is_honest(memory),
        address + len <= top(),
        0 <= k < len,
        memory.contents(address, len) is Some,
    ensures
        has_byte(memory, address + k, memory.contents(address, len)->0[k]),
{
    let bytes = memory.contents(address, len)->0;
    let at = (address + k) as u64;
    assert(memory.contents(at, 1) == Some(bytes.subrange(k, k + 1)));
    assert(bytes.subrange(k, k + 1) =~= seq![bytes[k]]);
}

/// Where the parts of a range end.
pub open spec fn end_of(parts: Seq<(MemoryRange, Option<Seq<u8>>)>, from: u64) -> int {
    if parts.len() == 0 {
        from as int
    } else {
        parts.last().0.address + parts.last().0.size
    }
}

/// Whatever a capture has of a range is what memory has there, byte by byte, and
/// its parts go on to where it was read.
pub proof fn a_capture_is_true_to_memory<M: Memory>(memory: &M, range: MemoryRange, at: int)
    requires
        is_coherent(memory),
        is_honest(memory),
        range.address + range.size <= top(),
        0 <= at <= range.size,
    ensures
        forall|i: int|
            0 <= i < parts_upto(memory, range, at).len() ==> is_true_to(
                memory,
                #[trigger] parts_upto(memory, range, at)[i],
            ),
        end_of(parts_upto(memory, range, at), range.address) == range.address + at,
        parts_upto(memory, range, at).len() > 0 ==> parts_upto(memory, range, at).last().0.address
            >= range.address,
        at > 0 ==> (parts_upto(memory, range, at).last().1 is Some <==> memory.contents(
            (range.address + piece_start(at)) as u64,
            (at - piece_start(at)) as nat,
        ) is Some),
    decreases at,
{
    if at > 0 {
        let from = piece_start(at);
        assert(0 <= from < at) by (nonlinear_arith)
            requires
                at > 0,
                from == (at - 1) / 1048576 * 1048576,
        ;
        a_capture_is_true_to_memory(memory, range, from);
        let place = (range.address + from) as u64;
        let piece = MemoryRange { address: place, size: (at - from) as u64, flags: range.flags };
        let bytes = memory.contents(place, (at - from) as nat);
        let parts = parts_upto(memory, range, from);
        let all = with_piece(parts, piece, bytes);
        assert(all == parts_upto(memory, range, at));
        assert forall|i: int| 0 <= i < all.len() implies is_true_to(memory, #[trigger] all[i]) by {
            if i < parts.len() - 1 {
                assert(all[i] == parts[i]);
            } else if i < parts.len() && (parts.last().1 is Some) != (bytes is Some) {
                assert(all[i] == parts[i]);
            } else if bytes is Some {
                let fresh = bytes->0;
                if i < parts.len() {
                    let (part, had) = parts.last();
                    assert(parts[i] == parts.last());
                    assert(is_true_to(memory, parts[i]));
                    let had = had->0;
                    let joined = had + fresh;
                    assert(all[i].1 == Some(joined));
                    assert(part.address + part.size == place);
                    assert forall|k: int| 0 <= k < joined.len() implies has_byte(
                        memory,
                        part.address + k,
                        #[trigger] joined[k],
                    ) by {
                        if k < had.len() {
                            assert(joined[k] == had[k]);
                        } else {
                            lemma_piece(memory, place, (at - from) as nat, k - had.len());
                            assert(joined[k] == fresh[k - had.len()]);
                        }
                    }
                } else {
                    assert forall|k: int| 0 <= k < fresh.len() implies has_byte(
                        memory,
                        place + k,
                        #[trigger] fresh[k],
                    ) by {
                        lemma_piece(memory, place, (at - from) as nat, k);
                    }
                }
            }
        }
    }
}

} // verus!
