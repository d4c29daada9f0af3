//! What is asked of the timer, and which setting has a say in it.
use vstd::prelude::*;

use crate::buildings::{splits_are_owed_once, Buildings, Split};
use crate::memory::Memory;
use crate::metadata::Module;
use crate::note::{logged, Action, Note};
use crate::settings::Settings;
use crate::timer::TimerState;
use crate::watch::{ending, splitting, splitting_all, starting, unlocking, Watch};
use crate::wonder::WonderUnlock;

verus! {

/// The one setting that a building split goes by.
pub open spec fn is_on(settings: Settings, split: Split) -> bool {
    &&& split is Forester ==> settings.forester
    &&& split is GearWorkshop ==> settings.gear_workshop
    &&& split is TappersShack ==> settings.tappers_shack
    &&& split is AdvancedScience ==> settings.advanced_science
    &&& split is SmelterAndWoodWorkshop ==> settings.smelter_woodworkshop
}

/// Whether a split is asked for, right behind the note that gives the reason.
pub open spec fn asks_for(asked: Seq<Action>, reason: Note) -> bool {
    exists|k: int|
        0 <= k && k + 1 < asked.len() && #[trigger] asked[k] == Action::Log(reason) && asked[k + 1]
            == Action::Split
}

/// Whether a note is in what is asked.
pub open spec fn says(asked: Seq<Action>, note: Note) -> bool {
    asked.contains(Action::Log(note))
}

/// Whether an action is the note of a reason to split: a building's, the wonder's
/// or the run end's.
pub open spec fn is_reason(action: Action) -> bool {
    action matches Action::Log(note) && (note is BuildingSplit || note is WonderSplit
        || note is RunEnd)
}

/// Whether every split that is asked for has a reason right in front of it.
pub open spec fn has_reasons(asked: Seq<Action>) -> bool {
    forall|k: int|
        0 <= k < asked.len() && #[trigger] asked[k] == Action::Split ==> k > 0 && is_reason(
            asked[k - 1],
        )
}

proof fn lemma_joined_asks(a: Seq<Action>, b: Seq<Action>, reason: Note)
    requires
        a.len() > 0 ==> a.last() != Action::Log(reason),
    ensures
        asks_for(a + b, reason) <==> asks_for(a, reason) || asks_for(b, reason),
{
    let all = a + b;
    if asks_for(all, reason) {
        let k = choose|k: int|
            0 <= k && k + 1 < all.len() && #[trigger] all[k] == Action::Log(reason) && all[k + 1]
                == Action::Split;
        if k + 1 < a.len() {
            assert(a[k] == Action::Log(reason));
            assert(a[k + 1] == all[k + 1]);
        } else if k >= a.len() {
            assert(b[k - a.len()] == Action::Log(reason));
            assert(b[k - a.len() + 1] == all[k + 1]);
        } else {
            assert(a.last() == all[k]);
        }
    }
    if asks_for(a, reason) {
        let k = choose|k: int|
            0 <= k && k + 1 < a.len() && #[trigger] a[k] == Action::Log(reason) && a[k + 1]
                == Action::Split;
        assert(all[k] == a[k] && all[k + 1] == a[k + 1]);
    }
    if asks_for(b, reason) {
        let k = choose|k: int|
            0 <= k && k + 1 < b.len() && #[trigger] b[k] == Action::Log(reason) && b[k + 1]
                == Action::Split;
        assert(all[a.len() + k] == b[k] && all[a.len() + k + 1] == b[k + 1]);
    }
}

proof fn lemma_joined_says(a: Seq<Action>, b: Seq<Action>, note: Note)
    ensures
        says(a + b, note) <==> says(a, note) || says(b, note),
{
    let all = a + b;
    let it = Action::Log(note);
    if all.contains(it) {
        let k = all.index_of(it);
        if k < a.len() {
            assert(a[k] == it);
        } else {
            assert(b[k - a.len()] == it);
        }
    }
    if a.contains(it) {
        assert(all[a.index_of(it)] == it);
    }
    if b.contains(it) {
        assert(all[a.len() + b.index_of(it)] == it);
    }
}

proof fn lemma_joined_reasons(a: Seq<Action>, b: Seq<Action>)
    requires
        has_reasons(a),
        has_reasons(b),
    ensures
        has_reasons(a + b),
{
    let all = a + b;
    assert forall|k: int| 0 <= k < all.len() && #[trigger] all[k] == Action::Split implies k > 0
        && is_reason(all[k - 1]) by {
        if k < a.len() {
            assert(a[k] == Action::Split);
            assert(all[k - 1] == a[k - 1]);
        } else {
            assert(b[k - a.len()] == Action::Split);
            assert(all[k - 1] == b[k - a.len() - 1]);
        }
    }
}

/// What one split asks for.
proof fn lemma_one(split: Split, other: Split, settings: Settings, timer: TimerState)
    ensures
        ({
            let asked = splitting(split, settings, timer);
            let goes = is_on(settings, split) && timer is Running;
            let reason = Note::BuildingSplit { split: other };
            &&& asked.len() > 0 && asked.last() != Action::Log(reason)
            &&& asks_for(asked, reason) <==> goes && other == split
            &&& says(asked, reason) <==> goes && other == split
            &&& says(asked, Note::BuildingNoSplit { split: other }) <==> !goes && other == split
            &&& has_reasons(asked)
        }),
{
    let asked = splitting(split, settings, timer);
    let goes = is_on(settings, split) && timer is Running;
    if goes {
        assert(asked == seq![Action::Log(Note::BuildingSplit { split }), Action::Split]);
        assert(asked[0] == Action::Log(Note::BuildingSplit { split }));
        assert(asked[1] == Action::Split);
    } else {
        assert(asked == seq![Action::Log(Note::BuildingNoSplit { split })]);
        assert(asked[0] == Action::Log(Note::BuildingNoSplit { split }));
    }
}

/// Each building split goes by its own setting and by no other: of those that
/// fire while the timer runs, one is asked for exactly where its setting is on,
/// and where it is off that is said instead; none is asked for without a reason,
/// and a timer that is not running is asked for nothing.
pub proof fn each_split_goes_by_its_own_setting(
    fired: Seq<Split>,
    settings: Settings,
    timer: TimerState,
    split: Split,
)
    ensures
        ({
            let asked = splitting_all(fired, settings, timer);
            let goes = is_on(settings, split) && timer is Running;
            &&& asks_for(asked, Note::BuildingSplit { split }) <==> fired.contains(split) && goes
            &&& says(asked, Note::BuildingSplit { split }) <==> fired.contains(split) && goes
            &&& says(asked, Note::BuildingNoSplit { split }) <==> fired.contains(split) && !goes
            &&& has_reasons(asked)
            &&& asked.len() > 0 ==> asked.last() != Action::Log(Note::BuildingSplit { split })
        }),
    decreases fired.len(),
{
    let reason = Note::BuildingSplit { split };
    let asked = splitting_all(fired, settings, timer);
    if fired.len() > 0 {
        let init = fired.drop_last();
        let last = fired.last();
        each_split_goes_by_its_own_setting(init, settings, timer, split);
        lemma_one(last, split, settings, timer);
        let before = splitting_all(init, settings, timer);
        let one = splitting(last, settings, timer);
        lemma_joined_asks(before, one, reason);
        lemma_joined_says(before, one, reason);
        lemma_joined_says(before, one, Note::BuildingNoSplit { split });
        lemma_joined_reasons(before, one);
        assert(asked.last() == one.last());
        if fired.contains(split) {
            let k = fired.index_of(split);
            if k < init.len() {
                assert(init[k] == split);
            }
        }
        if init.contains(split) {
            assert(fired[init.index_of(split)] == split);
        }
        if last == split {
            assert(fired[fired.len() - 1] == split);
        }
    }
}

/// The two other splits, and the start, go by their own settings too, and ask the
/// timer only what fits the state it is in.
pub proof fn the_rest_goes_by_its_own_setting(
    unlocked: bool,
    ends: bool,
    unlock: Option<WonderUnlock>,
    settings: Settings,
    timer: TimerState,
)
    ensures
        asks_for(unlocking(unlocked, settings, timer), Note::WonderSplit) <==> unlocked
            && settings.unlock_wonder && timer is Running,
        unlocking(unlocked, settings, timer).contains(Action::Split) <==> unlocked
            && settings.unlock_wonder && timer is Running,
        asks_for(ending(ends, unlock, settings, timer), Note::RunEnd) <==> ends
            && settings.congratulations_screen && timer is Running,
        ending(ends, unlock, settings, timer).contains(Action::Split) <==> ends
            && settings.congratulations_screen && timer is Running,
        starting(settings, timer).1.contains(Action::Start) <==> settings.start
            && timer is NotRunning,
        starting(settings, timer).0 == if settings.start && timer is NotRunning {
            TimerState::Running
        } else {
            timer
        },
        !unlocking(unlocked, settings, timer).contains(Action::Start),
        !ending(ends, unlock, settings, timer).contains(Action::Start),
        !starting(settings, timer).1.contains(Action::Split),
        has_reasons(unlocking(unlocked, settings, timer)),
        has_reasons(ending(ends, unlock, settings, timer)),
{
    let one = unlocking(unlocked, settings, timer);
    let two = ending(ends, unlock, settings, timer);
    let three = starting(settings, timer).1;
    if unlocked && settings.unlock_wonder && timer is Running {
        assert(one[0] == Action::Log(Note::WonderSplit) && one[1] == Action::Split);
    }
    let unseen = unlock matches Some(u) && !u.fired && !u.unlocked_on_arrival;
    let n: int = if unseen {
        1
    } else {
        0
    };
    if ends {
        if settings.congratulations_screen && timer is Running {
            assert(two.len() == n + 2);
            assert(two[n] == Action::Log(Note::RunEnd) && two[n + 1] == Action::Split);
        } else {
            assert(two.len() == n + 1);
            assert(two[n] == Action::Log(Note::RunEndNoSplit));
        }
        if unseen {
            assert(two[0] == Action::Log(Note::WonderNeverSeen));
        }
    }
    if settings.start && timer is NotRunning {
        assert(three[1] == Action::Start);
    }
}

/// Whether a building split came due between two looks: its building was not
/// finished and is now, and was not on arrival; and for the pair, the later of
/// the two.
pub open spec fn came_due(before: Buildings, after: Buildings, split: Split) -> bool {
    let newly = |slot: int|
        !before.finished@[slot] && after.finished@[slot] && !before.on_arrival@[slot];
    match split {
        Split::Forester => newly(0),
        Split::GearWorkshop => newly(1),
        Split::TappersShack => newly(2),
        Split::AdvancedScience => newly(3),
        Split::SmelterAndWoodWorkshop => !before.combined_fired && after.finished@[4]
            && after.finished@[5] && !(before.on_arrival@[4] && before.on_arrival@[5]),
    }
}

/// What a look at the buildings fires is what came due, split by split.
pub proof fn what_comes_due_fires<M: Memory>(
    before: Buildings,
    memory: &M,
    after: Buildings,
    fired: Seq<Split>,
    split: Split,
)
    requires
        before.wf(),
        after.wf(),
        before.polled(memory, after, fired),
    ensures
        fired.contains(split) <==> came_due(before, after, split),
{
    splits_are_owed_once(before, memory, after, fired);
    let done = (
        after.finished@[0],
        after.finished@[1],
        after.finished@[2],
        after.finished@[3],
        after.finished@[4],
        after.finished@[5],
    );
    assert(fired.contains(Split::Forester) <==> came_due(before, after, Split::Forester));
    assert(fired.contains(Split::GearWorkshop) <==> came_due(before, after, Split::GearWorkshop));
    assert(fired.contains(Split::TappersShack) <==> came_due(before, after, Split::TappersShack));
    assert(fired.contains(Split::AdvancedScience) <==> came_due(
        before,
        after,
        Split::AdvancedScience,
    ));
}

proof fn lemma_quiet(notes: Seq<Note>, reason: Note)
    requires
        !notes.contains(reason),
    ensures
        !asks_for(logged(notes), reason),
        !says(logged(notes), reason),
        has_reasons(logged(notes)),
        logged(notes).len() > 0 ==> logged(notes).last() != Action::Log(reason),
{
    let asked = logged(notes);
    assert(asked.len() == notes.len());
    assert forall|k: int| 0 <= k < asked.len() implies #[trigger] asked[k] != Action::Log(reason)
        && asked[k] is Log by {
        assert(asked[k] == Action::Log(notes[k]));
    }
}

/// At the end of a pass, a building split is asked for exactly where it came due,
/// its own setting is on and the timer is running; and every split asked for has
/// its reason.
pub proof fn a_pass_asks_for_what_came_due<M: Memory>(
    watch: Watch,
    memory: &M,
    module: Module,
    settings: Settings,
    timer: TimerState,
    after: Watch,
    asked: Seq<Action>,
    split: Split,
)
    requires
        watch.wf(),
        after.wf(),
        watch.bottomed(memory, module, settings, timer, after, asked),
    ensures
        asks_for(asked, Note::BuildingSplit { split }) <==> {
            &&& is_on(settings, split)
            &&& timer is Running
            &&& watch.valid_only(memory).buildings matches Some(before) && after.buildings
                matches Some(next) && came_due(before, next, split)
        },
        has_reasons(asked),
{
    let valid = watch.valid_only(memory);
    let (mid, fired) = choose|mid: Watch, fired: Seq<Split>|
        {
            &&& #[trigger] valid.built(memory, mid, fired)
            &&& {
                let (polled, unlocked) = mid.unlock_polled(memory, module);
                let (last, ends, notes) = polled.completion_polled(memory, module);
                &&& after.buildings == last.buildings
                &&& asked == splitting_all(fired, settings, timer) + unlocking(
                    unlocked,
                    settings,
                    timer,
                ) + logged(notes) + ending(ends, polled.unlock, settings, timer)
            }
        };
    let (polled, unlocked) = mid.unlock_polled(memory, module);
    let (last, ends, notes) = polled.completion_polled(memory, module);
    let reason = Note::BuildingSplit { split };
    let one = splitting_all(fired, settings, timer);
    let two = unlocking(unlocked, settings, timer);
    let three = logged(notes);
    let four = ending(ends, polled.unlock, settings, timer);
    each_split_goes_by_its_own_setting(fired, settings, timer, split);
    the_rest_goes_by_its_own_setting(unlocked, ends, polled.unlock, settings, timer);
    assert(!notes.contains(reason));
    lemma_quiet(notes, reason);
    assert(!asks_for(two, reason) && (two.len() > 0 ==> two.last() != Action::Log(reason)));
    assert(!asks_for(four, reason)) by {
        assert forall|k: int| 0 <= k < four.len() implies #[trigger] four[k] != Action::Log(
            reason,
        ) by {}
    }
    lemma_joined_asks(one, two, reason);
    lemma_joined_reasons(one, two);
    lemma_joined_asks(one + two, three, reason);
    lemma_joined_reasons(one + two, three);
    lemma_joined_asks(one + two + three, four, reason);
    lemma_joined_reasons(one + two + three, four);
    match valid.buildings {
        Some(before) => {
            let next = mid.buildings->0;
            assert(after.buildings == Some(next));
            what_comes_due_fires(before, memory, next, fired, split);
        },
        None => {},
    }
}

/// A building's split gives no other reason.
proof fn lemma_no_other_reason(
    fired: Seq<Split>,
    settings: Settings,
    timer: TimerState,
    reason: Note,
)
    requires
        reason is WonderSplit || reason is RunEnd,
    ensures
        !says(splitting_all(fired, settings, timer), reason),
    decreases fired.len(),
{
    if fired.len() > 0 {
        let init = fired.drop_last();
        lemma_no_other_reason(init, settings, timer, reason);
        let one = splitting(fired.last(), settings, timer);
        assert(!says(one, reason));
        lemma_joined_says(splitting_all(init, settings, timer), one, reason);
    }
}

proof fn lemma_unsaid(asked: Seq<Action>, reason: Note)
    requires
        !says(asked, reason),
    ensures
        !asks_for(asked, reason),
        asked.len() > 0 ==> asked.last() != Action::Log(reason),
{
    if asked.len() > 0 {
        assert(asked.contains(asked[asked.len() - 1]));
    }
    if asks_for(asked, reason) {
        let k = choose|k: int|
            0 <= k && k + 1 < asked.len() && #[trigger] asked[k] == Action::Log(reason) && asked[k
                + 1] == Action::Split;
        assert(asked.contains(asked[k]));
    }
}

/// At the end of a pass, the wonder's split and the run end's are asked for
/// exactly where the wonder is seen unlocked, or the countdown has run out for
/// the first time, their own setting is on and the timer is running.
pub proof fn a_pass_asks_for_the_wonder_and_the_end<M: Memory>(
    watch: Watch,
    memory: &M,
    module: Module,
    settings: Settings,
    timer: TimerState,
    after: Watch,
    asked: Seq<Action>,
)
    requires
        watch.bottomed(memory, module, settings, timer, after, asked),
    ensures
        asks_for(asked, Note::WonderSplit) <==> {
            &&& settings.unlock_wonder
            &&& timer is Running
            &&& watch.valid_only(memory).unlock matches Some(unlock) && unlock.polled(
                memory,
                module,
            ).1
        },
        asks_for(asked, Note::RunEnd) <==> {
            &&& settings.congratulations_screen
            &&& timer is Running
            &&& !watch.ended
            &&& watch.valid_only(memory).completion matches Some(completion) && completion.ended(
                memory,
            )
        },
        after.ended <==> watch.ended || (watch.valid_only(memory).completion matches Some(
            completion,
        ) && completion.ended(memory)),
{
    let valid = watch.valid_only(memory);
    let (mid, fired) = choose|mid: Watch, fired: Seq<Split>|
        {
            &&& #[trigger] valid.built(memory, mid, fired)
            &&& {
                let (polled, unlocked) = mid.unlock_polled(memory, module);
                let (last, ends, notes) = polled.completion_polled(memory, module);
                &&& after.ended == last.ended
                &&& asked == splitting_all(fired, settings, timer) + unlocking(
                    unlocked,
                    settings,
                    timer,
                ) + logged(notes) + ending(ends, polled.unlock, settings, timer)
            }
        };
    let (polled, unlocked) = mid.unlock_polled(memory, module);
    let (last, ends, notes) = polled.completion_polled(memory, module);
    let wonder = Note::WonderSplit;
    let end = Note::RunEnd;
    let one = splitting_all(fired, settings, timer);
    let two = unlocking(unlocked, settings, timer);
    let three = logged(notes);
    let four = ending(ends, polled.unlock, settings, timer);
    the_rest_goes_by_its_own_setting(unlocked, ends, polled.unlock, settings, timer);
    lemma_no_other_reason(fired, settings, timer, wonder);
    lemma_no_other_reason(fired, settings, timer, end);
    lemma_unsaid(one, wonder);
    lemma_unsaid(one, end);
    assert(!notes.contains(wonder) && !notes.contains(end));
    lemma_quiet(notes, wonder);
    lemma_quiet(notes, end);
    assert(two.len() > 0 ==> two.last() != Action::Log(wonder));
    assert(!says(two, end));
    lemma_unsaid(two, end);
    assert(!says(four, wonder));
    lemma_unsaid(four, wonder);
    lemma_joined_asks(one, two, wonder);
    lemma_joined_asks(one, two, end);
    lemma_joined_asks(one + two, three, wonder);
    lemma_joined_asks(one + two, three, end);
    lemma_joined_asks(one + two + three, four, wonder);
    lemma_joined_asks(one + two + three, four, end);
}

} // verus!
