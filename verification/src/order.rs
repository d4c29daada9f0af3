//! Putting addresses in order.
use vstd::prelude::*;

verus! {

/// In ascending order, with no repeats.
pub open spec fn ascending(values: Seq<u64>) -> bool {
    forall|i: int, j: int| 0 <= i < j < values.len() ==> #[trigger] values[i] < #[trigger] values[j]
}

/// The same values, whatever their order and however often each occurs.
pub open spec fn same_values(a: Seq<u64>, b: Seq<u64>) -> bool {
    forall|x: u64| #[trigger] a.contains(x) <==> b.contains(x)
}

/// Two ascending runs as one.
fn merged(a: &Vec<u64>, b: &Vec<u64>) -> (all: Vec<u64>)
    requires
        ascending(a@),
        ascending(b@),
    ensures
        ascending(all@),
        forall|x: u64| #[trigger] all@.contains(x) <==> a@.contains(x) || b@.contains(x),
{
    let mut all: Vec<u64> = Vec::new();
    let mut i: usize = 0;
    let mut j: usize = 0;
    while i < a.len() || j < b.len()
        invariant
            i <= a@.len(),
            j <= b@.len(),
            ascending(a@),
            ascending(b@),
            ascending(all@),
            all@.len() > 0 && i < a@.len() ==> all@.last() < a@[i as int],
            all@.len() > 0 && j < b@.len() ==> all@.last() < b@[j as int],
            forall|k: int| 0 <= k < all@.len() ==> a@.contains(#[trigger] all@[k]) || b@.contains(all@[k]),
            forall|k: int| 0 <= k < i ==> all@.contains(#[trigger] a@[k]),
            forall|k: int| 0 <= k < j ==> all@.contains(#[trigger] b@[k]),
        decreases a@.len() - i + b@.len() - j,
    {
        let ghost before = all@;
        let from_a = j >= b.len() || (i < a.len() && a[i] <= b[j]);
        let from_b = i >= a.len() || (j < b.len() && b[j] <= a[i]);
        let next: u64 = if from_a {
            a[i]
        } else {
            b[j]
        };
        all.push(next);
        assert(all@.last() == next);
        assert forall|x: u64| before.contains(x) implies #[trigger] all@.contains(x) by {
            let k = before.index_of(x);
            assert(all@[k] == x);
        }
        assert(all@[all@.len() - 1] == next);
        if from_a {
            i = i + 1;
        }
        if from_b {
            j = j + 1;
        }
    }
    assert forall|x: u64| a@.contains(x) || b@.contains(x) implies #[trigger] all@.contains(x) by {
        if a@.contains(x) {
            let k = a@.index_of(x);
            assert(all@.contains(a@[k]));
        } else {
            let k = b@.index_of(x);
            assert(all@.contains(b@[k]));
        }
    }
    all
}

/// `values` in ascending order, each once.
pub fn sorted_unique(values: &[u64]) -> (sorted: Vec<u64>)
    ensures
        ascending(sorted@),
        same_values(sorted@, values@),
    decreases values@.len(),
{
    let len: usize = values.len();
    if len == 0 {
        let sorted: Vec<u64> = Vec::new();
        assert(sorted@ =~= values@);
        return sorted;
    }
    if len == 1 {
        let mut sorted: Vec<u64> = Vec::new();
        sorted.push(values[0]);
        assert(sorted@ =~= values@);
        return sorted;
    }
    let (low, high) = values.split_at(len / 2);
    let left = sorted_unique(low);
    let right = sorted_unique(high);
    let sorted = merged(&left, &right);
    assert forall|x: u64| #[trigger] sorted@.contains(x) <==> values@.contains(x) by {
        assert(left@.contains(x) <==> low@.contains(x));
        assert(right@.contains(x) <==> high@.contains(x));
        if low@.contains(x) {
            assert(values@[low@.index_of(x)] == x);
        }
        if high@.contains(x) {
            assert(values@[low@.len() + high@.index_of(x)] == x);
        }
        if values@.contains(x) {
            let k = values@.index_of(x);
            if k < low@.len() {
                assert(low@[k] == x);
            } else {
                assert(high@[k - low@.len()] == x);
            }
        }
    }
    sorted
}

/// Whether `a` comes no later than `b`: by base, then by size.
pub open spec fn no_later(a: (u64, u64), b: (u64, u64)) -> bool {
    a.0 < b.0 || (a.0 == b.0 && a.1 <= b.1)
}

/// Ranges in order of their bases, and of their sizes where two bases agree.
pub open spec fn in_order(ranges: Seq<(u64, u64)>) -> bool {
    forall|i: int, j: int|
        0 <= i < j < ranges.len() ==> no_later(#[trigger] ranges[i], #[trigger] ranges[j])
}

/// Puts `range` where it belongs among ranges that are in order.
pub fn insert_in_order(ranges: &mut Vec<(u64, u64)>, range: (u64, u64))
    requires
        in_order(old(ranges)@),
    ensures
        in_order(final(ranges)@),
        final(ranges)@.to_multiset() == old(ranges)@.to_multiset().insert(range),
{
    let mut at: usize = ranges.len();
    while at > 0 && (ranges[at - 1].0 > range.0 || (ranges[at - 1].0 == range.0 && ranges[at
        - 1].1 > range.1))
        invariant
            at <= ranges@.len(),
            ranges@ == old(ranges)@,
            in_order(ranges@),
            forall|j: int| at <= j < ranges@.len() ==> no_later(range, #[trigger] ranges@[j]),
        decreases at,
    {
        at = at - 1;
    }
    broadcast use vstd::seq_lib::group_to_multiset_ensures;

    ranges.insert(at, range);
    assert(forall|k: int|
        0 <= k < ranges@.len() ==> #[trigger] ranges@[k] == (if k < at {
            old(ranges)@[k]
        } else if k == at {
            range
        } else {
            old(ranges)@[k - 1]
        }));
}

} // verus!
