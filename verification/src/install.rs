//! Reading facts off a game install, with no game running.
//!
//! Which install a capture or a fixture was made against is the thing that
//! makes it meaningful later, and it cannot be recovered afterwards -- so it
//! is read here, once, and written down.
use vstd::prelude::*;
use vstd::slice::slice_subrange;

use crate::memory::same_bytes;

verus! {

/// How much of the file is looked at.
pub const HEAD: usize = 200000;

/// How short a run of text may be and still count.
pub const SHORTEST: usize = 4;

/// How many runs behind the name are looked at.
pub const LOOKED_AT: usize = 4;

/// A byte that can be printed.
pub open spec fn is_printable(b: u8) -> bool {
    0x20 <= b < 0x7f
}

/// Where the run of printable bytes at `i` ends.
pub open spec fn run_end(bytes: Seq<u8>, i: int) -> int
    decreases bytes.len() - i,
{
    if i < 0 || i >= bytes.len() || !is_printable(bytes[i]) {
        i
    } else {
        run_end(bytes, i + 1)
    }
}

/// The runs of printable bytes from `i` on that are long enough to count, as
/// where each begins and ends.
pub open spec fn strings_from(bytes: Seq<u8>, i: int) -> Seq<(int, int)>
    decreases bytes.len() + 1 - i,
{
    if i < 0 || i > bytes.len() {
        Seq::empty()
    } else {
        let end = run_end(bytes, i);
        let here = if end - i >= SHORTEST {
            seq![(i, end)]
        } else {
            Seq::empty()
        };
        proof {
            lemma_run_end(bytes, i);
        }
        here + strings_from(bytes, end + 1)
    }
}

/// The text of a run.
pub open spec fn run_at(bytes: Seq<u8>, run: (int, int)) -> Seq<u8> {
    bytes.subrange(run.0, run.1)
}

/// `Timberborn`.
pub open spec fn name() -> Seq<u8> {
    seq![84u8, 105u8, 109u8, 98u8, 101u8, 114u8, 98u8, 111u8, 114u8, 110u8]
}

pub open spec fn is_digit(b: u8) -> bool {
    48 <= b <= 57
}

/// How much of a run is in front of its first dash.
pub open spec fn before_dash(run: Seq<u8>, i: int) -> int
    decreases run.len() - i,
{
    if i < 0 || i >= run.len() || run[i] == 45 {
        i
    } else {
        before_dash(run, i + 1)
    }
}

/// How many dots there are among the first `n` bytes.
pub open spec fn dots(run: Seq<u8>, n: int) -> nat
    decreases n,
{
    if n <= 0 {
        0
    } else if run[n - 1] == 46 {
        dots(run, n - 1) + 1
    } else {
        dots(run, n - 1)
    }
}

/// Whether the first `n` bytes are numbers with dots between them: nothing else,
/// and no dot without a digit on either side.
pub open spec fn is_dotted(run: Seq<u8>, n: int) -> bool {
    &&& 0 < n <= run.len()
    &&& is_digit(run[0])
    &&& is_digit(run[n - 1])
    &&& forall|i: int|
        #![trigger run[i]]
        0 <= i < n ==> is_digit(run[i]) || (run[i] == 46 && 0 < i && is_digit(run[i - 1]))
}

/// Whether a run is a version: at least three numbers with dots between them,
/// and perhaps a dash and more.
pub open spec fn is_version(run: Seq<u8>) -> bool {
    let n = before_dash(run, 0);
    is_dotted(run, n) && dots(run, n) >= 2
}

/// The first of `strings` from `i` on, before `until`, that is a version.
pub open spec fn first_version(
    bytes: Seq<u8>,
    strings: Seq<(int, int)>,
    i: int,
    until: int,
) -> Option<Seq<u8>>
    decreases until - i,
{
    if i < 0 || i >= until || i >= strings.len() {
        None
    } else if is_version(run_at(bytes, strings[i])) {
        Some(run_at(bytes, strings[i]))
    } else {
        first_version(bytes, strings, i + 1, until)
    }
}

/// Which of `strings` from `i` on is the game's name.
pub open spec fn name_place(bytes: Seq<u8>, strings: Seq<(int, int)>, i: int) -> Option<int>
    decreases strings.len() - i,
{
    if i < 0 || i >= strings.len() {
        None
    } else if run_at(bytes, strings[i]) == name() {
        Some(i)
    } else {
        name_place(bytes, strings, i + 1)
    }
}

/// How much of a file is looked at.
pub open spec fn head_of(blob: Seq<u8>) -> Seq<u8> {
    if blob.len() > HEAD {
        blob.take(HEAD as int)
    } else {
        blob
    }
}

/// The version that a file gives: the first among the runs of text just behind
/// the game's name that looks like one.
pub open spec fn version_in(blob: Seq<u8>) -> Option<Seq<u8>> {
    let head = head_of(blob);
    let strings = strings_from(head, 0);
    match name_place(head, strings, 0) {
        Some(at) => first_version(head, strings, at + 1, at + 1 + LOOKED_AT),
        None => None,
    }
}

/// What bytes spell, a character each.
pub open spec fn spelled(bytes: Seq<u8>) -> Seq<char> {
    bytes.map_values(|b: u8| b as char)
}

fn text_of(bytes: &[u8]) -> (text: String)
    ensures
        text@ == spelled(bytes@),
{
    let mut text = String::new();
    let mut i: usize = 0;
    while i < bytes.len()
        invariant
            i <= bytes@.len(),
            text@ == spelled(bytes@.take(i as int)),
        decreases bytes@.len() - i,
    {
        text.push(bytes[i] as char);
        i = i + 1;
        assert(text@ =~= spelled(bytes@.take(i as int)));
    }
    assert(bytes@.take(i as int) =~= bytes@);
    text
}

fn digit(b: u8) -> (is: bool)
    ensures
        is == is_digit(b),
{
    48 <= b && b <= 57
}

fn looks_like_version(run: &[u8]) -> (is: bool)
    ensures
        is == is_version(run@),
{
    let len: usize = run.len();
    let mut n: usize = 0;
    while n < len && run[n] != 45
        invariant
            n <= len,
            len == run@.len(),
            before_dash(run@, 0) == before_dash(run@, n as int),
        decreases len - n,
    {
        n = n + 1;
    }
    if n == 0 || !digit(run[0]) || !digit(run[n - 1]) {
        return false;
    }
    let mut count: usize = 0;
    let mut i: usize = 0;
    while i < n
        invariant
            i <= n,
            n == before_dash(run@, 0),
            n <= run@.len(),
            is_digit(run@[0]),
            count <= i,
            count == dots(run@, i as int),
            forall|k: int|
                #![trigger run@[k]]
                0 <= k < i ==> is_digit(run@[k]) || (run@[k] == 46 && 0 < k && is_digit(
                    run@[k - 1],
                )),
        decreases n - i,
    {
        if run[i] == 46 {
            if i == 0 || !digit(run[i - 1]) {
                return false;
            }
            count = count + 1;
        } else if !digit(run[i]) {
            return false;
        }
        i = i + 1;
    }
    count >= 2
}

fn printable(b: u8) -> (is: bool)
    ensures
        is == is_printable(b),
{
    0x20 <= b && b < 0x7f
}

spec fn pairs(runs: Seq<(usize, usize)>) -> Seq<(int, int)> {
    runs.map_values(|run: (usize, usize)| (run.0 as int, run.1 as int))
}

pub proof fn lemma_run_end(bytes: Seq<u8>, i: int)
    requires
        0 <= i <= bytes.len(),
    ensures
        i <= run_end(bytes, i) <= bytes.len(),
    decreases bytes.len() - i,
{
    if i < bytes.len() && is_printable(bytes[i]) {
        lemma_run_end(bytes, i + 1);
    }
}

/// The runs of printable bytes that are long enough to count.
fn strings(bytes: &[u8]) -> (runs: Vec<(usize, usize)>)
    requires
        bytes@.len() < usize::MAX,
    ensures
        pairs(runs@) == strings_from(bytes@, 0),
        forall|i: int|
            0 <= i < runs@.len() ==> (#[trigger] runs@[i]).0 <= runs@[i].1 <= bytes@.len(),
{
    let mut runs: Vec<(usize, usize)> = Vec::new();
    let len: usize = bytes.len();
    let mut i: usize = 0;
    assert(pairs(runs@) + strings_from(bytes@, 0) =~= strings_from(bytes@, 0));
    while i <= len
        invariant
            len == bytes@.len(),
            len < usize::MAX,
            i <= len + 1,
            pairs(runs@) + strings_from(bytes@, i as int) == strings_from(bytes@, 0),
            forall|k: int|
                0 <= k < runs@.len() ==> (#[trigger] runs@[k]).0 <= runs@[k].1 <= bytes@.len(),
        decreases len + 1 - i,
    {
        let mut end: usize = i;
        while end < len && printable(bytes[end])
            invariant
                i <= end <= len,
                len == bytes@.len(),
                run_end(bytes@, i as int) == run_end(bytes@, end as int),
            decreases len - end,
        {
            end = end + 1;
        }
        let ghost before = pairs(runs@);
        if end - i >= SHORTEST {
            runs.push((i, end));
            assert(pairs(runs@) =~= before + seq![(i as int, end as int)]);
        }
        proof {
            let rest = strings_from(bytes@, end + 1);
            assert(pairs(runs@) + rest =~= before + strings_from(bytes@, i as int));
        }
        i = end + 1;
    }
    assert(pairs(runs@) + strings_from(bytes@, i as int) =~= pairs(runs@));
    runs
}

/// The game's own version, e.g. `1.1.2.4-52e959e-sw`, from PlayerSettings'
/// bundleVersion in `globalgamemanagers`, whose bytes are `blob`. The game's own
/// name for the build, so a snapshot and a saved-off install can be paired by
/// it.
///
/// This is what identifies a capture. Steam's app manifest cannot: it reports
/// whichever build is *installed*, and an old version run out of the version
/// store is not that one.
pub fn version(blob: &[u8]) -> (version: Option<String>)
    ensures
        match version {
            Some(version) => version_in(blob@) is Some && version@ == spelled(
                version_in(blob@)->0,
            ),
            None => version_in(blob@) is None,
        },
{
    let head = if blob.len() > HEAD {
        slice_subrange(blob, 0, HEAD)
    } else {
        blob
    };
    assert(head@ =~= head_of(blob@));
    let all = strings(head);
    let wanted: Vec<u8> = vec![84, 105, 109, 98, 101, 114, 98, 111, 114, 110];
    assert(wanted@ =~= name());
    let mut at: usize = 0;
    while at < all.len()
        invariant
            at <= all@.len(),
            wanted@ == name(),
            forall|k: int|
                0 <= k < all@.len() ==> (#[trigger] all@[k]).0 <= all@[k].1 <= head@.len(),
            name_place(head@, pairs(all@), 0) == name_place(head@, pairs(all@), at as int),
        ensures
            at <= all@.len(),
            name_place(head@, pairs(all@), 0) == if at < all@.len() {
                Some(at as int)
            } else {
                None
            },
        decreases all@.len() - at,
    {
        let run = slice_subrange(head, all[at].0, all[at].1);
        assert(pairs(all@)[at as int] == (all@[at as int].0 as int, all@[at as int].1 as int));
        if same_bytes(run, wanted.as_slice()) {
            break;
        }
        at = at + 1;
    }
    if at >= all.len() {
        return None;
    }
    let count: usize = all.len();
    let mut k: usize = 0;
    while k < LOOKED_AT && k < count - at - 1
        invariant
            k <= LOOKED_AT,
            count == all@.len(),
            at < all@.len(),
            at + 1 + k <= all@.len(),
            forall|k: int|
                0 <= k < all@.len() ==> (#[trigger] all@[k]).0 <= all@[k].1 <= head@.len(),
            head@ == head_of(blob@),
            pairs(all@) == strings_from(head@, 0),
            name_place(head@, pairs(all@), 0) == Some(at as int),
            version_in(blob@) == first_version(
                head@,
                pairs(all@),
                at + 1 + k,
                at + 1 + LOOKED_AT,
            ),
        decreases LOOKED_AT - k,
    {
        let place: usize = at + 1 + k;
        let run = slice_subrange(head, all[place].0, all[place].1);
        assert(pairs(all@)[place as int] == (
            all@[place as int].0 as int,
            all@[place as int].1 as int,
        ));
        if looks_like_version(run) {
            return Some(text_of(run));
        }
        k = k + 1;
    }
    None
}

} // verus!
