//! The tools around the splitter: what they take in, and what they make of it.
use vstd::prelude::*;

use crate::capture::{capturable_of, is_capturable};
use crate::freeze::{waiting, Wait};
use crate::install::{
    first_version, is_printable, name_place, run_at, run_end, strings_from, version_in,
};
use crate::live::{mapping_of, mappings_of, names_the_game, Mapping, MappingView};
use crate::record::{
    dir_from, dir_in, parsed, parsed_from, pid_of, states_of, step_label, ArgsView, WrongView,
};
use crate::requirement::state_from;
use crate::scenario::next_of;
use crate::snapshot::find::{found, found_or, CaptureView, LackView};
use crate::text::{
    a_number_reads_back, decimal_text, digit_char, digits, digits_value, number_of, occurs,
    stands_at,
};
use crate::timer::{after_all, TimerEvent, TimerState};

verus! {

/// Whether a text begins with another.
pub open spec fn starts_with(text: Seq<char>, part: Seq<char>) -> bool {
    part.len() <= text.len() && text.take(part.len() as int) == part
}

/// What is captured of a process is all that can be read, but for what belongs to
/// devices, the kernel and the display server.
pub proof fn what_can_be_read_is_captured(mappings: Seq<Mapping>, n: int, i: int)
    requires
        0 <= n <= mappings.len() <= usize::MAX,
        0 <= i < mappings.len(),
    ensures
        capturable_of(mappings, n).contains(i as usize) <==> i < n && is_capturable(mappings[i]@),
        is_capturable(mappings[i]@) <==> mappings[i]@.flags & 1 != 0 && (
        mappings[i]@.path matches Some(path) ==> !starts_with(path, "/dev/"@) && !starts_with(
            path,
            "[vvar"@,
        ) && path != "[vsyscall]"@ && !starts_with(path, "/memfd:wine"@)),
        forall|k: int|
            0 <= k < capturable_of(mappings, n).len() ==> #[trigger] capturable_of(
                mappings,
                n,
            )[k] < n,
    decreases n,
{
    if let Some(path) = mappings[i]@.path {
        lemma_starts(path, "/dev/"@);
        lemma_starts(path, "[vvar"@);
        lemma_starts(path, "/memfd:wine"@);
    }
    if n > 0 {
        what_can_be_read_is_captured(mappings, n - 1, i);
        let some = capturable_of(mappings, n - 1);
        let all = capturable_of(mappings, n);
        let last = (n - 1) as usize;
        if all.contains(i as usize) {
            let k = all.index_of(i as usize);
            if k < some.len() {
                assert(some[k] == i as usize);
                assert(some.contains(i as usize));
            } else {
                assert(i == n - 1);
            }
        }
        if i < n && is_capturable(mappings[i]@) {
            if i < n - 1 {
                let k = some.index_of(i as usize);
                assert(all[k] == i as usize);
            } else {
                assert(all[some.len() as int] == i as usize);
            }
        }
        assert forall|k: int| 0 <= k < all.len() implies #[trigger] all[k] < n by {
            if k < some.len() {
                assert(all[k] == some[k]);
            }
        }
    }
}

proof fn lemma_starts(text: Seq<char>, part: Seq<char>)
    ensures
        stands_at(text, part, 0) <==> starts_with(text, part),
{
    if part.len() <= text.len() {
        assert(text.subrange(0, part.len() as int) =~= text.take(part.len() as int));
    }
}

/// A line names the game where it has the game's data in it, or ends with the
/// game itself.
pub proof fn the_game_is_named_by_its_files(front: Seq<char>, back: Seq<char>)
    ensures
        names_the_game(front + "/Timberborn.exe"@),
        names_the_game(front + "/Timberborn_Data/"@ + back),
        names_the_game(front) ==> occurs(front, "/Timberborn_Data/"@) || occurs(
            front,
            "/Timberborn.exe"@,
        ),
{
    let exe = "/Timberborn.exe"@;
    let data = "/Timberborn_Data/"@;
    let one = front + exe;
    assert(one.subrange(front.len() as int, one.len() as int) =~= exe);
    assert(stands_at(one, exe, one.len() - exe.len()));
    let two = front + data + back;
    assert(two.subrange(front.len() as int, front.len() as int + data.len()) =~= data);
    assert(stands_at(two, data, front.len() as int));
}

/// Every line that is a mapping's is kept, and nothing else is.
pub proof fn every_mapping_is_kept(lines: Seq<Seq<char>>, n: int, mapping: MappingView)
    requires
        0 <= n <= lines.len(),
    ensures
        mappings_of(lines, n).contains(mapping) <==> exists|i: int|
            0 <= i < n && mapping_of(#[trigger] lines[i]) == Some(mapping),
    decreases n,
{
    if n > 0 {
        every_mapping_is_kept(lines, n - 1, mapping);
        let some = mappings_of(lines, n - 1);
        let all = mappings_of(lines, n);
        if all.contains(mapping) {
            let k = all.index_of(mapping);
            if k < some.len() {
                assert(some[k] == mapping);
                assert(some.contains(mapping));
            } else {
                assert(mapping_of(lines[n - 1]) == Some(mapping));
            }
        }
        if exists|i: int| 0 <= i < n && mapping_of(#[trigger] lines[i]) == Some(mapping) {
            let i = choose|i: int| 0 <= i < n && mapping_of(#[trigger] lines[i]) == Some(mapping);
            if i < n - 1 {
                assert(some.contains(mapping));
                assert(all[some.index_of(mapping)] == mapping);
            } else {
                assert(all[some.len() as int] == mapping);
            }
        }
    }
}

/// A capture is of its own state, of the state a recording begins at where it is
/// the first, and of the state it ends at where it is the last.
pub proof fn a_capture_is_of_these_states(
    id: Seq<char>,
    begins_at: Option<Seq<char>>,
    ends_at: Option<Seq<char>>,
    step: u32,
    ends: bool,
    state: Seq<char>,
)
    ensures
        states_of(id, begins_at, ends_at, step, ends).contains(state) <==> state == id || (step == 0
            && begins_at == Some(state)) || (ends && ends_at == Some(state)),
        states_of(id, begins_at, ends_at, step, ends)[0] == id,
{
    let all = states_of(id, begins_at, ends_at, step, ends);
    let first = if step == 0 && begins_at is Some {
        seq![id].push(begins_at->0)
    } else {
        seq![id]
    };
    assert(all[0] == id);
    if step == 0 && begins_at is Some {
        assert(first[1] == begins_at->0);
        assert(all[1] == begins_at->0);
    }
    if ends && ends_at is Some {
        assert(all[first.len() as int] == ends_at->0);
    }
}

/// A step's number reads back from its label, which has two digits at least.
pub proof fn a_step_reads_back_from_its_label(step: u32)
    ensures
        step_label(step as int).len() >= 6,
        number_of(step_label(step as int).skip(4), 10) == Some(step as u64),
{
    reveal_strlit("step");
    reveal_strlit("0");
    let number = digits(step as nat, 10);
    let label = step_label(step as int);
    if step < 10 {
        let c = digit_char(step as int);
        let two = seq!['0', c];
        assert(number =~= seq![c]);
        assert(label.skip(4) =~= two);
        assert(two.drop_last() =~= seq!['0']);
        assert(seq!['0'].drop_last() =~= Seq::<char>::empty());
        assert(digits_value(Seq::<char>::empty(), 10) == Some(0int));
        assert(digits_value(seq!['0'], 10) == Some(0int));
        assert(digits_value(two, 10) == Some(step as int));
    } else {
        assert(label.skip(4) =~= number);
        a_number_reads_back(step as u64, 10);
        assert(number.len() >= 2) by {
            assert(number == digits(step as nat / 10, 10).push(digit_char((step % 10) as int)));
            lemma_some_digits(step as nat / 10);
        }
    }
}

proof fn lemma_some_digits(n: nat)
    ensures
        digits(n, 10).len() > 0,
    decreases n,
{
    if n >= 10 {
        lemma_some_digits(n / 10);
    }
}

/// What is given on the command line comes through: each value under its own
/// flag.
pub proof fn arguments_come_through(
    argv: Seq<String>,
    state: Seq<char>,
    label: Seq<char>,
    notes: Seq<char>,
    pid: u32,
)
    requires
        argv.len() == 8,
        argv[0]@ == "--state"@,
        argv[1]@ == state,
        argv[2]@ == "--label"@,
        argv[3]@ == label,
        argv[4]@ == "--notes"@,
        argv[5]@ == notes,
        argv[6]@ == "--pid"@,
        argv[7]@ == decimal_text(pid as int),
    ensures
        parsed(argv) == if state_from(state, 0) is Some {
            Ok::<ArgsView, WrongView>(
                ArgsView { state: Some(state), label: Some(label), notes, pid: Some(pid) },
            )
        } else {
            Err(WrongView::NoSuchState(state))
        },
{
    lemma_flags();
    a_number_reads_back(pid as u64, 10);
    assert(pid_of(argv[7]@) == Some(pid));
    let none = ArgsView { state: None, label: None, notes: Seq::empty(), pid: None };
    let one = ArgsView { state: Some(state), ..none };
    let two = ArgsView { label: Some(label), ..one };
    let three = ArgsView { notes, ..two };
    let four = ArgsView { pid: Some(pid), ..three };
    assert(parsed_from(argv, 8, four) == Ok::<ArgsView, WrongView>(four));
    assert(parsed_from(argv, 6, three) == parsed_from(argv, 8, four));
    assert(parsed_from(argv, 4, two) == parsed_from(argv, 6, three));
    assert(parsed_from(argv, 2, one) == parsed_from(argv, 4, two));
    assert(parsed_from(argv, 0, none) == parsed_from(argv, 2, one));
}

proof fn lemma_flags()
    ensures
        "--state"@ != "--label"@ && "--state"@ != "--notes"@ && "--state"@ != "--pid"@,
        "--label"@ != "--notes"@ && "--label"@ != "--pid"@ && "--notes"@ != "--pid"@,
{
    reveal_strlit("--state");
    reveal_strlit("--label");
    reveal_strlit("--notes");
    reveal_strlit("--pid");
    assert("--state"@[2] == 's' && "--label"@[2] == 'l' && "--notes"@[2] == 'n' && "--pid"@[2]
        == 'p');
}

/// No state, no recording; and a word that is no flag is refused by name.
pub proof fn arguments_are_refused(argv: Seq<String>)
    ensures
        argv.len() == 0 ==> parsed(argv) == Err::<ArgsView, WrongView>(WrongView::NoState),
        argv.len() > 0 && argv[0]@ != "--state"@ && argv[0]@ != "--label"@ && argv[0]@
            != "--notes"@ && argv[0]@ != "--pid"@ && argv[0]@ != "--help"@ && argv[0]@ != "-h"@
            ==> parsed(argv) == Err::<ArgsView, WrongView>(WrongView::Unknown(argv[0]@)),
        parsed(argv) matches Ok(args) ==> (args.state matches Some(state) && state_from(
            state,
            0,
        ) is Some),
{
}

/// The game's directory is told by the first mapping that has the game's data in
/// its path.
pub proof fn the_first_mapping_of_the_game_tells_its_directory(
    mappings: Seq<Mapping>,
    from: int,
    i: int,
)
    requires
        0 <= from <= i < mappings.len(),
        dir_in(mappings[i]@.path) is Some,
        forall|k: int| from <= k < i ==> dir_in((#[trigger] mappings[k])@.path) is None,
    ensures
        dir_from(mappings, from) == dir_in(mappings[i]@.path),
    decreases i - from,
{
    if from < i {
        assert(dir_in(mappings[from]@.path) is None);
        the_first_mapping_of_the_game_tells_its_directory(mappings, from + 1, i);
    }
}

/// A process is waited for until it stands still, and no longer than five hundred
/// looks.
pub proof fn a_process_is_waited_for(state: Option<char>, checked: u32)
    ensures
        waiting(state, checked) is Stopped <==> state == Some('T'),
        waiting(state, checked) is Vanished <==> state is None,
        waiting(state, checked) is Stuck ==> checked >= 500,
        state is Some && state != Some('T') && checked >= 500 ==> waiting(state, checked)
            == Wait::Stuck,
{
}

/// Whether the bytes from `a` up to `b` are printable, and those around are not.
pub open spec fn is_string(bytes: Seq<u8>, a: int, b: int) -> bool {
    &&& 0 <= a < b <= bytes.len()
    &&& forall|k: int| a <= k < b ==> 0x20 <= #[trigger] bytes[k] < 0x7f
    &&& a > 0 ==> !(0x20 <= bytes[a - 1] < 0x7f)
    &&& b < bytes.len() ==> !(0x20 <= bytes[b] < 0x7f)
}

proof fn lemma_run_end(bytes: Seq<u8>, i: int, b: int)
    requires
        0 <= i <= b <= bytes.len(),
        forall|k: int| i <= k < b ==> is_printable(#[trigger] bytes[k]),
        b < bytes.len() ==> !is_printable(bytes[b]),
    ensures
        run_end(bytes, i) == b,
    decreases b - i,
{
    if i < b {
        assert(is_printable(bytes[i]));
        lemma_run_end(bytes, i + 1, b);
    }
}

proof fn lemma_run_reaches(bytes: Seq<u8>, i: int)
    requires
        0 <= i <= bytes.len(),
    ensures
        i <= run_end(bytes, i) <= bytes.len(),
        forall|k: int| i <= k < run_end(bytes, i) ==> is_printable(#[trigger] bytes[k]),
        run_end(bytes, i) < bytes.len() ==> !is_printable(bytes[run_end(bytes, i)]),
    decreases bytes.len() - i,
{
    if i < bytes.len() && is_printable(bytes[i]) {
        lemma_run_reaches(bytes, i + 1);
    }
}

proof fn lemma_strings(bytes: Seq<u8>, i: int, run: (int, int))
    requires
        0 <= i <= bytes.len() + 1,
        0 < i <= bytes.len() ==> !is_printable(bytes[i - 1]),
    ensures
        strings_from(bytes, i).contains(run) <==> i <= run.0 && run.1 - run.0 >= 4 && is_string(
            bytes,
            run.0,
            run.1,
        ),
    decreases bytes.len() + 1 - i,
{
    if i <= bytes.len() {
        lemma_run_reaches(bytes, i);
        let end = run_end(bytes, i);
        lemma_strings(bytes, end + 1, run);
        let rest = strings_from(bytes, end + 1);
        let here = if end - i >= 4 {
            seq![(i, end)]
        } else {
            Seq::empty()
        };
        let all = strings_from(bytes, i);
        assert(all == here + rest);
        if all.contains(run) {
            let k = all.index_of(run);
            if k < here.len() {
                assert(run == (i, end));
            } else {
                assert(rest[k - here.len()] == run);
                assert(rest.contains(run));
            }
        }
        if i <= run.0 && run.1 - run.0 >= 4 && is_string(bytes, run.0, run.1) {
            if run.0 == i {
                lemma_run_end(bytes, i, run.1);
                assert(all[0] == run);
            } else if run.0 <= end {
                if run.0 < end {
                    assert(is_printable(bytes[run.0 - 1]));
                } else {
                    assert(is_printable(bytes[run.0 - 1]));
                    assert(end > i);
                }
                assert(false);
            } else {
                let k = rest.index_of(run);
                assert(all[here.len() + k] == run);
            }
        }
    }
}

/// The strings of a file are its runs of printable bytes, of four or more, as long
/// as they go; all of them, and nothing else.
pub proof fn every_string_is_found(bytes: Seq<u8>, a: int, b: int)
    ensures
        strings_from(bytes, 0).contains((a, b)) <==> b - a >= 4 && is_string(bytes, a, b),
{
    lemma_strings(bytes, 0, (a, b));
    if is_string(bytes, a, b) && a < 0 {
        assert(false);
    }
}

/// The version is one of the four strings behind the game's name.
pub proof fn the_version_stands_behind_the_name(blob: Seq<u8>, strings: Seq<(int, int)>)
    requires
        blob.len() <= 200_000,
        strings == strings_from(blob, 0),
    ensures
        version_in(blob) matches Some(version) ==> exists|at: int, i: int|
            {
                &&& 0 <= at < i <= at + 4
                &&& i < strings.len()
                &&& #[trigger] run_at(blob, strings[at]) == crate::install::name()
                &&& #[trigger] run_at(blob, strings[i]) == version
                &&& crate::install::is_version(version)
            },
{
    lemma_name_place(blob, strings, 0);
    if let Some(at) = name_place(blob, strings, 0) {
        lemma_first_version(blob, strings, at + 1, at + 5);
        if let Some(version) = first_version(blob, strings, at + 1, at + 5) {
            let i = choose|i: int|
                at + 1 <= i < at + 5 && i < strings.len() && #[trigger] run_at(blob, strings[i])
                    == version;
            assert(run_at(blob, strings[at]) == crate::install::name());
            assert(run_at(blob, strings[i]) == version);
        }
    }
}

proof fn lemma_name_place(bytes: Seq<u8>, strings: Seq<(int, int)>, i: int)
    requires
        0 <= i,
    ensures
        name_place(bytes, strings, i) matches Some(at) ==> i <= at < strings.len() && run_at(
            bytes,
            strings[at],
        ) == crate::install::name(),
    decreases strings.len() - i,
{
    if i < strings.len() && run_at(bytes, strings[i]) != crate::install::name() {
        lemma_name_place(bytes, strings, i + 1);
    }
}

proof fn lemma_first_version(bytes: Seq<u8>, strings: Seq<(int, int)>, i: int, until: int)
    requires
        0 <= i,
    ensures
        first_version(bytes, strings, i, until) matches Some(version) ==> crate::install::is_version(
            version,
        ) && exists|k: int|
            i <= k < until && k < strings.len() && #[trigger] run_at(bytes, strings[k]) == version,
    decreases until - i,
{
    if i < until && i < strings.len() {
        if crate::install::is_version(run_at(bytes, strings[i])) {
            assert(run_at(bytes, strings[i]) == first_version(bytes, strings, i, until)->0);
        } else {
            lemma_first_version(bytes, strings, i + 1, until);
        }
    }
}

/// A state's captures are asked for by its name: one that is not known is refused
/// as such, and one that nothing was captured of as that.
pub proof fn a_state_is_asked_for_by_name(captures: Seq<CaptureView>, id: Seq<char>)
    ensures
        found_or(captures, id) matches Err(LackView::Unknown(asked)) ==> asked == id && state_from(
            id,
            0,
        ) is None,
        state_from(id, 0) is None ==> found_or(captures, id) is Err,
        found_or(captures, id) matches Ok(all) ==> all.len() > 0 && all == found(
            captures,
            id,
            captures.len() as int,
        ) && state_from(id, 0) is Some,
        state_from(id, 0) is Some && found(captures, id, captures.len() as int).len() > 0
            ==> found_or(captures, id) is Ok,
{
}

/// A scenario is gone through step by step, and stays at its last.
pub proof fn a_scenario_goes_step_by_step(len: nat, at: nat)
    requires
        at < len,
    ensures
        next_of(len, at) < len,
        at + 1 < len ==> next_of(len, at) == at + 1,
        at + 1 == len ==> next_of(len, at) == at,
{
}

/// A timer is running where the last start is behind the last reset, and not
/// where a reset is behind every start.
pub proof fn the_last_start_or_reset_decides(
    state: TimerState,
    events: Seq<TimerEvent>,
    k: int,
)
    requires
        0 <= k < events.len(),
        events[k] is Start || events[k] is Reset,
        forall|j: int|
            k < j < events.len() ==> !(#[trigger] events[j] is Start) && !(events[j] is Reset),
    ensures
        after_all(state, events) == if events[k] is Start {
            TimerState::Running
        } else {
            TimerState::NotRunning
        },
    decreases events.len(),
{
    if k < events.len() - 1 {
        let init = events.drop_last();
        assert(!(events[events.len() - 1] is Start) && !(events[events.len() - 1] is Reset));
        assert(events.last() == events[events.len() - 1]);
        assert forall|j: int| k < j < init.len() implies !(#[trigger] init[j] is Start) && !(
        init[j] is Reset) by {
            assert(init[j] == events[j]);
        }
        the_last_start_or_reset_decides(state, init, k);
    }
}

/// A run is controlled by what starts, splits and resets it, not by what is shown
/// or by game time.
pub proof fn a_run_is_controlled_by_its_splits(event: TimerEvent)
    ensures
        event.controls() <==> event is Start || event is Split || event is SkipSplit
            || event is UndoSplit || event is Reset,
{
}

} // verus!
