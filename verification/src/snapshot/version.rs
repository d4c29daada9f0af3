//! Game versions, in the order in which they came out.
use vstd::prelude::*;

use crate::text::chars_of;

verus! {

/// A number of a version with one more digit. What does not fit counts as the
/// largest that does.
pub open spec fn with_digit(number: u64, digit: int) -> u64 {
    if number * 10 + digit > u64::MAX {
        u64::MAX
    } else {
        (number * 10 + digit) as u64
    }
}

/// Whether a text is made of digits and dots, as the front of a version is.
pub open spec fn is_dotted(text: Seq<char>) -> bool {
    forall|i: int| 0 <= i < text.len() ==> (#[trigger] text[i] == '.' || '0' <= text[i] <= '9')
}

/// The numbers of a version, as `1, 1, 2, 4` of `1.1.2.4-52e959e-sw`: those
/// between the dots, up to the first character that is neither digit nor dot.
pub open spec fn numbers(version: Seq<char>) -> Seq<u64>
    decreases version.len(),
{
    if version.len() == 0 {
        seq![0]
    } else {
        let before = numbers(version.drop_last());
        if !is_dotted(version) {
            before
        } else if version.last() == '.' {
            before.push(0)
        } else {
            before.drop_last().push(with_digit(before.last(), version.last() as u32 - '0' as u32))
        }
    }
}

/// Whether numbers come before others, from the `i`th on: the first that differs
/// decides, and where none does, the fewer.
pub open spec fn are_below(a: Seq<u64>, b: Seq<u64>, i: int) -> bool
    decreases a.len() - i,
{
    if i < 0 || i >= b.len() {
        false
    } else if i >= a.len() {
        true
    } else if a[i] == b[i] {
        are_below(a, b, i + 1)
    } else {
        a[i] < b[i]
    }
}

/// Whether a version came out before another, number by number.
pub open spec fn is_older(a: Seq<char>, b: Seq<char>) -> bool {
    are_below(numbers(a), numbers(b), 0)
}

proof fn lemma_below(a: Seq<u64>, b: Seq<u64>, c: Seq<u64>, i: int)
    requires
        0 <= i,
        are_below(a, b, i),
        are_below(b, c, i),
    ensures
        are_below(a, c, i),
    decreases a.len() - i,
{
    if i < a.len() && a[i] == b[i] && b[i] == c[i] {
        lemma_below(a, b, c, i + 1);
    }
}

proof fn lemma_below_or(a: Seq<u64>, b: Seq<u64>, i: int)
    requires
        0 <= i <= a.len(),
        i <= b.len(),
        a.take(i) == b.take(i),
    ensures
        are_below(a, b, i) || are_below(b, a, i) || a == b,
        !(are_below(a, b, i) && are_below(b, a, i)),
    decreases a.len() - i,
{
    if i < a.len() && i < b.len() && a[i] == b[i] {
        assert(a.take(i + 1) =~= a.take(i).push(a[i]));
        assert(b.take(i + 1) =~= b.take(i).push(b[i]));
        lemma_below_or(a, b, i + 1);
    } else if i == a.len() && i == b.len() {
        assert(a =~= a.take(i));
        assert(b =~= b.take(i));
    }
}

/// Coming out before is transitive.
pub proof fn lemma_older(a: Seq<char>, b: Seq<char>, c: Seq<char>)
    requires
        is_older(a, b),
        is_older(b, c),
    ensures
        is_older(a, c),
{
    lemma_below(numbers(a), numbers(b), numbers(c), 0);
}

/// Of two versions one came out before the other, and not both ways, unless
/// their numbers are the same.
pub proof fn lemma_older_total(a: Seq<char>, b: Seq<char>)
    ensures
        is_older(a, b) || is_older(b, a) || numbers(a) == numbers(b),
        !(is_older(a, b) && is_older(b, a)),
{
    assert(numbers(a).take(0) =~= numbers(b).take(0));
    lemma_below_or(numbers(a), numbers(b), 0);
}

/// What stands in front of a text of digits and dots is one too.
proof fn lemma_dotted(text: Seq<char>)
    requires
        text.len() > 0,
    ensures
        is_dotted(text) == (is_dotted(text.drop_last()) && (text.last() == '.' || '0'
            <= text.last() <= '9')),
{
    let front = text.drop_last();
    if is_dotted(text) {
        assert forall|i: int| 0 <= i < front.len() implies (#[trigger] front[i] == '.' || '0'
            <= front[i] <= '9') by {
            assert(front[i] == text[i]);
        }
        assert(text[text.len() - 1] == text.last());
    }
    if is_dotted(front) && (text.last() == '.' || '0' <= text.last() <= '9') {
        assert forall|i: int| 0 <= i < text.len() implies (#[trigger] text[i] == '.' || '0'
            <= text[i] <= '9') by {
            if i < front.len() {
                assert(front[i] == text[i]);
            }
        }
    }
}

/// The numbers of a version.
pub fn numbers_of(version: &str) -> (found: Vec<u64>)
    ensures
        found@ == numbers(version@),
{
    let chars = chars_of(version);
    let mut found: Vec<u64> = Vec::new();
    found.push(0);
    let mut dotted = true;
    let mut i: usize = 0;
    assert(found@ =~= numbers(version@.take(0)));
    while i < chars.len()
        invariant
            i <= chars@.len(),
            chars@ == version@,
            found@.len() > 0,
            dotted == is_dotted(version@.take(i as int)),
            found@ == numbers(version@.take(i as int)),
        decreases chars@.len() - i,
    {
        let c: char = chars[i];
        let ghost next = version@.take(i + 1);
        let ghost before = found@;
        proof {
            assert(next.drop_last() =~= version@.take(i as int));
            assert(next.last() == c);
            lemma_dotted(next);
        }
        if dotted && c == '.' {
            found.push(0);
        } else if dotted && '0' <= c && c <= '9' {
            let digit: u64 = (c as u32 - '0' as u32) as u64;
            let last: usize = found.len() - 1;
            let number: u64 = found[last];
            let more: u128 = number as u128 * 10 + digit as u128;
            found[last] = if more > u64::MAX as u128 {
                u64::MAX
            } else {
                more as u64
            };
            assert(found@ =~= before.drop_last().push(with_digit(before.last(), digit as int)));
        } else {
            dotted = false;
        }
        i = i + 1;
    }
    assert(version@.take(i as int) =~= version@);
    found
}

/// Whether numbers come before others.
pub fn come_before(a: &Vec<u64>, b: &Vec<u64>) -> (before: bool)
    ensures
        before == are_below(a@, b@, 0),
{
    let mut i: usize = 0;
    while i < a.len() && i < b.len()
        invariant
            i <= a@.len(),
            i <= b@.len(),
            are_below(a@, b@, 0) == are_below(a@, b@, i as int),
        decreases a@.len() - i,
    {
        if a[i] != b[i] {
            return a[i] < b[i];
        }
        i = i + 1;
    }
    i < b.len()
}

} // verus!
