//! Captures: which came first, and which are found.
use vstd::prelude::*;

use crate::snapshot::find::{
    best, found, is_of, moments, recording, recordings, run_of, versions, CaptureView, Moment,
};
use crate::snapshot::index::{in_order, lemma_arranged, Placed};
use crate::snapshot::version::{are_below, is_dotted, is_older, numbers, with_digit};
use crate::text::{decimal_text, digit_char, digits, precedes, precedes_from};

verus! {

/// Of two lists of numbers, the first number that differs decides, and where none
/// does the shorter comes first.
pub proof fn the_first_number_that_differs_decides(a: Seq<u64>, b: Seq<u64>, i: int)
    requires
        0 <= i <= a.len(),
        i < b.len(),
        forall|k: int| 0 <= k < i ==> #[trigger] a[k] == b[k],
        i < a.len() ==> a[i] != b[i],
    ensures
        are_below(a, b, 0) <==> i == a.len() || a[i] < b[i],
{
    lemma_decides(a, b, 0, i);
}

proof fn lemma_decides(a: Seq<u64>, b: Seq<u64>, from: int, i: int)
    requires
        0 <= from <= i <= a.len(),
        i < b.len(),
        forall|k: int| 0 <= k < i ==> #[trigger] a[k] == b[k],
        i < a.len() ==> a[i] != b[i],
    ensures
        are_below(a, b, from) <==> i == a.len() || a[i] < b[i],
    decreases i - from,
{
    if from < i {
        assert(a[from] == b[from]);
        lemma_decides(a, b, from + 1, i);
    }
}

/// Of two texts, the first character that differs decides, and where none does
/// the shorter comes first.
pub proof fn the_first_character_that_differs_decides(a: Seq<char>, b: Seq<char>, i: int)
    requires
        0 <= i <= a.len(),
        i < b.len(),
        forall|k: int| 0 <= k < i ==> #[trigger] a[k] == b[k],
        i < a.len() ==> a[i] != b[i],
    ensures
        precedes(a, b) <==> i == a.len() || (a[i] as int) < (b[i] as int),
{
    lemma_precedes_decides(a, b, 0, i);
}

proof fn lemma_precedes_decides(a: Seq<char>, b: Seq<char>, from: int, i: int)
    requires
        0 <= from <= i <= a.len(),
        i < b.len(),
        forall|k: int| 0 <= k < i ==> #[trigger] a[k] == b[k],
        i < a.len() ==> a[i] != b[i],
    ensures
        precedes_from(a, b, from) <==> i == a.len() || (a[i] as int) < (b[i] as int),
    decreases i - from,
{
    if from < i {
        assert(a[from] == b[from]);
        lemma_precedes_decides(a, b, from + 1, i);
    }
}

proof fn lemma_pushed_dotted(text: Seq<char>, c: char)
    requires
        is_dotted(text),
        c == '.' || '0' <= c <= '9',
    ensures
        is_dotted(text.push(c)),
{
    let more = text.push(c);
    assert forall|i: int| 0 <= i < more.len() implies (#[trigger] more[i] == '.' || '0' <= more[i]
        <= '9') by {
        if i < text.len() {
            assert(more[i] == text[i]);
        }
    }
}

proof fn lemma_some_numbers(version: Seq<char>)
    ensures
        numbers(version).len() > 0,
    decreases version.len(),
{
    if version.len() > 0 {
        lemma_some_numbers(version.drop_last());
    }
}

proof fn lemma_digits_push(front: Seq<char>, n: nat)
    requires
        is_dotted(front),
        numbers(front).last() == 0,
        n <= u64::MAX,
    ensures
        is_dotted(front + digits(n, 10)),
        numbers(front + digits(n, 10)) == numbers(front).drop_last().push(n as u64),
    decreases n,
{
    let all = front + digits(n, 10);
    let c = digit_char((n % 10) as int);
    assert('0' <= c <= '9' && c as u32 - '0' as u32 == n % 10);
    lemma_some_numbers(front);
    if n < 10 {
        assert(all =~= front.push(c));
        lemma_pushed_dotted(front, c);
        assert(all.drop_last() =~= front);
        assert(with_digit(0, n as int) == n as u64);
    } else {
        lemma_digits_push(front, n / 10);
        let before = front + digits(n / 10, 10);
        assert(all =~= before.push(c));
        lemma_pushed_dotted(before, c);
        assert(all.drop_last() =~= before);
        let some = numbers(before);
        assert(some.last() == (n / 10) as u64);
        assert(n / 10 * 10 + n % 10 == n);
        assert(with_digit(some.last(), (n % 10) as int) == n as u64);
        assert(some.drop_last() =~= numbers(front).drop_last());
    }
}

/// The numbers of a version are what stands between its dots.
pub proof fn a_version_is_its_numbers(front: Seq<char>, n: u64)
    requires
        is_dotted(front),
    ensures
        is_dotted(front + seq!['.'] + decimal_text(n as int)),
        numbers(front + seq!['.'] + decimal_text(n as int)) == numbers(front).push(n),
        numbers(decimal_text(n as int)) == seq![n],
{
    let dotted = front.push('.');
    lemma_pushed_dotted(front, '.');
    assert(dotted.drop_last() =~= front);
    assert(front + seq!['.'] =~= dotted);
    lemma_some_numbers(front);
    lemma_digits_push(dotted, n as nat);
    assert(numbers(dotted).drop_last() =~= numbers(front));
    let none = Seq::<char>::empty();
    assert(is_dotted(none));
    lemma_digits_push(none, n as nat);
    assert(none + digits(n as nat, 10) =~= digits(n as nat, 10));
}

/// What follows the numbers of a version, from the first other character on, does
/// not count.
pub proof fn what_follows_the_numbers_does_not_count(
    version: Seq<char>,
    c: char,
    rest: Seq<char>,
)
    requires
        c != '.',
        !('0' <= c <= '9'),
    ensures
        numbers(version + seq![c] + rest) == numbers(version),
    decreases rest.len(),
{
    let all = version + seq![c] + rest;
    assert(all[version.len() as int] == c);
    assert(!is_dotted(all));
    if rest.len() == 0 {
        assert(all.drop_last() =~= version);
    } else {
        what_follows_the_numbers_does_not_count(version, c, rest.drop_last());
        assert(all.drop_last() =~= version + seq![c] + rest.drop_last());
    }
}

/// A later release of the same line is newer, and so is one with more numbers.
pub proof fn a_higher_number_is_newer(front: Seq<char>, n: u64, m: u64)
    requires
        is_dotted(front),
    ensures
        is_older(front + seq!['.'] + decimal_text(n as int), front + seq!['.'] + decimal_text(
            m as int,
        )) <==> n < m,
        is_older(front, front + seq!['.'] + decimal_text(n as int)),
{
    a_version_is_its_numbers(front, n);
    a_version_is_its_numbers(front, m);
    let a = numbers(front).push(n);
    let b = numbers(front).push(m);
    let k = numbers(front).len() as int;
    if n != m {
        the_first_number_that_differs_decides(a, b, k);
    } else {
        crate::snapshot::version::lemma_older_total(
            front + seq!['.'] + decimal_text(n as int),
            front + seq!['.'] + decimal_text(m as int),
        );
    }
    the_first_number_that_differs_decides(numbers(front), a, k);
}

/// A state's captures are those that say they satisfy it: all of them, in the
/// order of the shelf.
pub proof fn every_capture_of_a_state_is_found(
    captures: Seq<CaptureView>,
    id: Seq<char>,
    n: int,
)
    requires
        0 <= n <= captures.len() <= usize::MAX,
    ensures
        forall|i: usize| #[trigger]
            found(captures, id, n).contains(i) <==> i < n
                && captures[i as int].metadata.satisfies.contains(id),
        forall|a: int, b: int|
            0 <= a < b < found(captures, id, n).len() ==> #[trigger] found(captures, id, n)[a]
                < #[trigger] found(captures, id, n)[b],
    decreases n,
{
    if n > 0 {
        every_capture_of_a_state_is_found(captures, id, n - 1);
        let some = found(captures, id, n - 1);
        let all = found(captures, id, n);
        let last = (n - 1) as usize;
        assert forall|i: usize| #[trigger] all.contains(i) <==> i < n
            && captures[i as int].metadata.satisfies.contains(id) by {
            if all.contains(i) {
                let k = all.index_of(i);
                if k < some.len() {
                    assert(some[k] == i);
                    assert(some.contains(i));
                }
            }
            if i < n && is_of(captures[i as int], id) {
                if i < n - 1 {
                    assert(some.contains(i));
                    assert(all[some.index_of(i)] == i);
                } else {
                    assert(all[some.len() as int] == i);
                }
            }
        }
        assert forall|a: int, b: int| 0 <= a < b < all.len() implies #[trigger] all[a]
            < #[trigger] all[b] by {
            if b < some.len() {
                assert(some[a] < some[b]);
            } else {
                assert(some.contains(some[a]));
            }
        }
    }
}

/// Whether capture `k` of those listed is of this version.
pub open spec fn is_for(
    captures: Seq<CaptureView>,
    which: Seq<usize>,
    version: Seq<char>,
    k: int,
) -> bool {
    captures[which[k] as int].metadata.game_version == version
}

/// Of the captures of a version, the first that was taken of a frozen game is
/// chosen, and the first of all only where there is none such.
pub proof fn a_frozen_capture_is_preferred(
    captures: Seq<CaptureView>,
    which: Seq<usize>,
    version: Seq<char>,
    n: int,
)
    requires
        0 <= n <= which.len(),
    ensures
        best(captures, which, version, n) is None <==> forall|k: int|
            0 <= k < n ==> !(#[trigger] is_for(captures, which, version, k)),
        best(captures, which, version, n) matches Some(chosen) ==> exists|k: int|
            {
                &&& 0 <= k < n
                &&& #[trigger] is_for(captures, which, version, k)
                &&& which[k] == chosen
                &&& forall|j: int|
                    0 <= j < k && #[trigger] is_for(captures, which, version, j) ==> captures[
                        chosen as int
                    ].metadata.frozen && !captures[which[j] as int].metadata.frozen
                &&& forall|j: int|
                    0 <= j < n && #[trigger] is_for(captures, which, version, j)
                        && captures[which[j] as int].metadata.frozen ==> captures[
                        chosen as int
                    ].metadata.frozen
            },
    decreases n,
{
    if n > 0 {
        a_frozen_capture_is_preferred(captures, which, version, n - 1);
        let before = best(captures, which, version, n - 1);
        let after = best(captures, which, version, n);
        let here = is_for(captures, which, version, n - 1);
        match before {
            None => {
                if here {
                    assert(after == Some(which[n - 1]));
                }
            },
            Some(chosen) => {
                let k = choose|k: int|
                    {
                        &&& 0 <= k < n - 1
                        &&& #[trigger] is_for(captures, which, version, k)
                        &&& which[k] == chosen
                        &&& forall|j: int|
                            0 <= j < k && #[trigger] is_for(captures, which, version, j)
                                ==> captures[chosen as int].metadata.frozen
                                && !captures[which[j] as int].metadata.frozen
                        &&& forall|j: int|
                            0 <= j < n - 1 && #[trigger] is_for(captures, which, version, j)
                                && captures[which[j] as int].metadata.frozen ==> captures[
                                chosen as int
                            ].metadata.frozen
                    };
                if here && captures[which[n - 1] as int].metadata.frozen
                    && !captures[chosen as int].metadata.frozen {
                    assert(after == Some(which[n - 1]));
                    assert(is_for(captures, which, version, n - 1));
                } else {
                    assert(after == Some(chosen));
                    assert(is_for(captures, which, version, k));
                }
            },
        }
    }
}

/// The versions of the captures listed are told once each.
pub proof fn every_version_is_told_once(
    captures: Seq<CaptureView>,
    which: Seq<usize>,
    n: int,
    version: Seq<char>,
)
    requires
        0 <= n <= which.len(),
    ensures
        versions(captures, which, n).contains(version) <==> exists|k: int|
            0 <= k < n && #[trigger] is_for(captures, which, version, k),
        versions(captures, which, n).no_duplicates(),
    decreases n,
{
    if n > 0 {
        let last = captures[which[n - 1] as int].metadata.game_version;
        every_version_is_told_once(captures, which, n - 1, version);
        every_version_is_told_once(captures, which, n - 1, last);
        let some = versions(captures, which, n - 1);
        let all = versions(captures, which, n);
        assert(is_for(captures, which, last, n - 1));
        if all.contains(version) {
            let i = all.index_of(version);
            if i < some.len() {
                assert(some[i] == version);
                assert(some.contains(version));
            }
        }
        if exists|k: int| 0 <= k < n && #[trigger] is_for(captures, which, version, k) {
            let k = choose|k: int| 0 <= k < n && #[trigger] is_for(captures, which, version, k);
            if k < n - 1 || some.contains(last) {
                assert(some.contains(version));
                assert(all[some.index_of(version)] == version);
            } else {
                assert(all[some.len() as int] == version);
            }
        }
    }
}

/// Whether capture `k` of those listed is a step of this recording.
pub open spec fn is_step_of(
    captures: Seq<CaptureView>,
    which: Seq<usize>,
    name: Seq<char>,
    k: int,
) -> bool {
    let capture = captures[which[k] as int];
    capture.metadata.step is Some && capture.metadata.scenario == Some(name)
}

/// The recordings that the captures listed are steps of are told once each.
pub proof fn every_recording_is_told_once(
    captures: Seq<CaptureView>,
    which: Seq<usize>,
    n: int,
    name: Seq<char>,
)
    requires
        0 <= n <= which.len(),
    ensures
        recordings(captures, which, n).contains(name) <==> exists|k: int|
            0 <= k < n && #[trigger] is_step_of(captures, which, name, k),
        recordings(captures, which, n).no_duplicates(),
    decreases n,
{
    if n > 0 {
        let last = recording(captures[which[n - 1] as int]);
        every_recording_is_told_once(captures, which, n - 1, name);
        let some = recordings(captures, which, n - 1);
        let all = recordings(captures, which, n);
        if last is Some {
            every_recording_is_told_once(captures, which, n - 1, last->0);
            assert(is_step_of(captures, which, last->0, n - 1));
        }
        if all.contains(name) {
            let i = all.index_of(name);
            if i < some.len() {
                assert(some[i] == name);
                assert(some.contains(name));
            }
        }
        if exists|k: int| 0 <= k < n && #[trigger] is_step_of(captures, which, name, k) {
            let k = choose|k: int| 0 <= k < n && #[trigger] is_step_of(captures, which, name, k);
            if k < n - 1 || some.contains(name) {
                assert(some.contains(name));
                assert(all[some.index_of(name)] == name);
            } else {
                assert(all[some.len() as int] == name);
            }
        }
    }
}

proof fn lemma_moments(
    captures: Seq<CaptureView>,
    which: Seq<usize>,
    name: Seq<char>,
    n: int,
    moment: Moment,
)
    requires
        0 <= n <= which.len(),
    ensures
        moments(captures, which, name, n).contains(moment) <==> exists|k: int|
            0 <= k < n && #[trigger] is_step_of(captures, which, name, k) && which[k]
                == moment.capture && (captures[which[k] as int].metadata.step->0).0 == moment.index,
    decreases n,
{
    if n > 0 {
        lemma_moments(captures, which, name, n - 1, moment);
        let some = moments(captures, which, name, n - 1);
        let all = moments(captures, which, name, n);
        if all.contains(moment) {
            let i = all.index_of(moment);
            if i < some.len() {
                assert(some[i] == moment);
                assert(some.contains(moment));
            } else {
                assert(is_step_of(captures, which, name, n - 1));
            }
        }
        if exists|k: int|
            0 <= k < n && #[trigger] is_step_of(captures, which, name, k) && which[k]
                == moment.capture && (captures[which[k] as int].metadata.step->0).0
                == moment.index {
            let k = choose|k: int|
                0 <= k < n && #[trigger] is_step_of(captures, which, name, k) && which[k]
                    == moment.capture && (captures[which[k] as int].metadata.step->0).0
                    == moment.index;
            if k < n - 1 {
                assert(some.contains(moment));
                assert(all[some.index_of(moment)] == moment);
            } else {
                assert(all[some.len() as int] == moment);
            }
        }
    }
}

/// A recording is all its captures of a state, each at its own step, in the order
/// of the steps.
pub proof fn a_recording_is_all_its_steps(
    captures: Seq<CaptureView>,
    id: Seq<char>,
    name: Seq<char>,
    moment: Moment,
)
    requires
        captures.len() <= usize::MAX,
    ensures
        run_of(captures, id, name).contains(moment) <==> {
            &&& moment.capture < captures.len()
            &&& captures[moment.capture as int].metadata.satisfies.contains(id)
            &&& captures[moment.capture as int].metadata.scenario == Some(name)
            &&& captures[moment.capture as int].metadata.step matches Some(step) && step.0
                == moment.index
        },
        forall|i: int, j: int|
            0 <= i < j < run_of(captures, id, name).len() ==> (#[trigger] run_of(
                captures,
                id,
                name,
            )[i]).index <= (#[trigger] run_of(captures, id, name)[j]).index,
{
    let which = found(captures, id, captures.len() as int);
    every_capture_of_a_state_is_found(captures, id, captures.len() as int);
    let all = moments(captures, which, name, which.len() as int);
    lemma_moments(captures, which, name, which.len() as int, moment);
    lemma_arranged(all);
    let run = run_of(captures, id, name);
    assert(in_order(run));
    assert forall|i: int, j: int| 0 <= i < j < run.len() implies (#[trigger] run[i]).index <= (
    #[trigger] run[j]).index by {
        lemma_in_order(run, i, j);
    }
    if run.contains(moment) {
        let k = choose|k: int|
            0 <= k < which.len() && #[trigger] is_step_of(captures, which, name, k) && which[k]
                == moment.capture && (captures[which[k] as int].metadata.step->0).0
                == moment.index;
        assert(which.contains(which[k]));
    }
    if moment.capture < captures.len() && is_of(captures[moment.capture as int], id) && captures[
        moment.capture as int
    ].metadata.scenario == Some(name) && (captures[moment.capture as int].metadata.step matches Some(
        step,
    ) && step.0 == moment.index) {
        assert(which.contains(moment.capture));
        let k = which.index_of(moment.capture);
        assert(is_step_of(captures, which, name, k));
    }
}

proof fn lemma_in_order(run: Seq<Moment>, i: int, j: int)
    requires
        in_order(run),
        0 <= i < j < run.len(),
    ensures
        run[i].index <= run[j].index,
{
    assert(run[i].place() <= run[j].place());
}

} // verus!
