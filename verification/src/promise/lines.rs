//! What is read out of lines of text.
use vstd::prelude::*;

use crate::freeze::{past_bracket, state_in};
use crate::live::{
    bounds_of, field, field_end, field_start, file_name_of, mapping_of, past_slash, permission_bits,
    permits, without_slashes, MappingView,
};
use crate::record::{
    described, dir_in, done_from, is_noise, is_word_char, lowered, place_from, reason_of, said_from,
    slug, word_from, word_to,
};
use crate::text::{
    a_number_reads_back, digit_char, digits, is_white, lemma_place_is, past_white, stands_at,
    trimmed, trimmed_end, word_end,
};
use crate::timer::TimerEvent;

verus! {

/// Whether a text has no white space in it.
pub open spec fn is_solid(text: Seq<char>) -> bool {
    forall|i: int| 0 <= i < text.len() ==> !is_white(#[trigger] text[i])
}

/// Whether a text is all white space.
pub open spec fn is_blank(text: Seq<char>) -> bool {
    forall|i: int| 0 <= i < text.len() ==> is_white(#[trigger] text[i])
}

/// Whether the characters from `from` up to `to` are white space.
pub open spec fn is_gap(line: Seq<char>, from: int, to: int) -> bool {
    forall|i: int| from <= i < to ==> is_white(#[trigger] line[i])
}

/// Whether the characters from `from` up to `to` have no white space among them.
pub open spec fn is_word(line: Seq<char>, from: int, to: int) -> bool {
    forall|i: int| from <= i < to ==> !is_white(#[trigger] line[i])
}

proof fn lemma_past_white_is(line: Seq<char>, i: int, at: int)
    requires
        0 <= i <= at <= line.len(),
        is_gap(line, i, at),
        at < line.len() ==> !is_white(line[at]),
    ensures
        past_white(line, i) == at,
    decreases at - i,
{
    if i < at {
        assert(is_white(line[i]));
        lemma_past_white_is(line, i + 1, at);
    }
}

proof fn lemma_word_end_is(line: Seq<char>, i: int, at: int)
    requires
        0 <= i <= at <= line.len(),
        is_word(line, i, at),
        at < line.len() ==> is_white(line[at]),
    ensures
        word_end(line, i) == at,
    decreases at - i,
{
    if i < at {
        assert(!is_white(line[i]));
        lemma_word_end_is(line, i + 1, at);
    }
}

/// Whether the fields of a line begin and end at these places.
pub open spec fn are_fields(line: Seq<char>, starts: Seq<int>, ends: Seq<int>) -> bool {
    &&& starts.len() == ends.len()
    &&& starts.len() > 0
    &&& 0 <= starts[0]
    &&& is_gap(line, 0, starts[0])
    &&& forall|k: int|
        0 <= k < starts.len() ==> {
            &&& #[trigger] starts[k] < ends[k] <= line.len()
            &&& is_word(line, starts[k], ends[k])
            &&& ends[k] < line.len() ==> is_white(line[ends[k]])
        }
    &&& forall|k: int|
        0 < k < starts.len() ==> ends[k - 1] < #[trigger] starts[k] && is_gap(
            line,
            ends[k - 1],
            starts[k],
        )
}

/// A line's fields are what stands between its white space.
pub proof fn a_field_is_what_stands_between_spaces(
    line: Seq<char>,
    starts: Seq<int>,
    ends: Seq<int>,
    k: int,
)
    requires
        are_fields(line, starts, ends),
        0 <= k < starts.len(),
    ensures
        0 <= starts[k],
        field_start(line, k) == starts[k],
        field_end(line, k) == ends[k],
        field(line, k) == line.subrange(starts[k], ends[k]),
    decreases k,
{
    assert(starts[k] < ends[k]);
    assert(!is_white(line[starts[k]]));
    if k > 0 {
        a_field_is_what_stands_between_spaces(line, starts, ends, k - 1);
        assert(starts[k - 1] < ends[k - 1]);
        lemma_past_white_is(line, ends[k - 1], starts[k]);
    } else {
        lemma_past_white_is(line, 0, starts[0]);
    }
    lemma_word_end_is(line, starts[k], ends[k]);
}

proof fn lemma_hex(n: nat)
    ensures
        digits(n, 16).len() > 0,
        is_solid(digits(n, 16)),
        forall|i: int| 0 <= i < digits(n, 16).len() ==> #[trigger] digits(n, 16)[i] != '-',
    decreases n,
{
    let all = digits(n, 16);
    if n >= 16 {
        lemma_hex(n / 16);
        let front = digits(n / 16, 16);
        let c = digit_char((n % 16) as int);
        assert(all == front.push(c));
        assert forall|i: int| 0 <= i < all.len() implies !is_white(#[trigger] all[i]) && all[i]
            != '-' by {
            if i < front.len() {
                assert(all[i] == front[i]);
            }
        }
    } else {
        assert(all == seq![digit_char(n as int)]);
    }
}

/// The bounds of a mapping are the two numbers around the dash.
pub proof fn bounds_read_back(start: u64, end: u64)
    ensures
        bounds_of(digits(start as nat, 16) + seq!['-'] + digits(end as nat, 16)) == Some(
            (start, end),
        ),
{
    let a = digits(start as nat, 16);
    let b = digits(end as nat, 16);
    let all = a + seq!['-'] + b;
    lemma_hex(start as nat);
    lemma_hex(end as nat);
    assert forall|i: int| 0 <= i < a.len() implies all[i] != '-' by {
        assert(all[i] == a[i]);
    }
    assert(all[a.len() as int] == '-');
    lemma_place_is(all, '-', 0, a.len() as int);
    assert(all.take(a.len() as int) =~= a);
    assert(all.skip(a.len() as int + 1) =~= b);
    a_number_reads_back(start, 16);
    a_number_reads_back(end, 16);
}

/// A mapping's line gives its bounds, its offset and what may be done with it,
/// and the rest of the line, without the white space around it, is its path.
pub proof fn a_mapping_reads_back(
    line: Seq<char>,
    starts: Seq<int>,
    ends: Seq<int>,
    start: u64,
    end: u64,
    offset: u64,
    path: Seq<char>,
)
    requires
        are_fields(line, starts, ends),
        starts.len() == 5,
        start <= end,
        line.subrange(starts[0], ends[0]) == digits(start as nat, 16) + seq!['-'] + digits(
            end as nat,
            16,
        ),
        line.subrange(starts[2], ends[2]) == digits(offset as nat, 16),
        path == trimmed(line, ends[4]),
    ensures
        mapping_of(line) == Some(
            MappingView {
                address: start,
                size: (end - start) as u64,
                flags: permission_bits(line.subrange(starts[1], ends[1]), path.len() > 0),
                file_offset: offset,
                path: if path.len() > 0 {
                    Some(path)
                } else {
                    None
                },
            },
        ),
{
    a_field_is_what_stands_between_spaces(line, starts, ends, 0);
    a_field_is_what_stands_between_spaces(line, starts, ends, 1);
    a_field_is_what_stands_between_spaces(line, starts, ends, 2);
    a_field_is_what_stands_between_spaces(line, starts, ends, 4);
    assert(starts[1] < ends[1]);
    assert(starts[2] < ends[2]);
    bounds_read_back(start, end);
    a_number_reads_back(offset, 16);
}

proof fn lemma_trimmed_end(text: Seq<char>, i: int, n: int, at: int)
    requires
        0 <= i <= at <= n <= text.len(),
        is_gap(text, at, n),
        at > i ==> !is_white(text[at - 1]),
    ensures
        trimmed_end(text, i, n) == at,
    decreases n,
{
    if n > at {
        assert(is_white(text[n - 1]));
        lemma_trimmed_end(text, i, n - 1, at);
    }
}

/// What is trimmed keeps all but the white space at its two ends.
pub proof fn a_trimmed_text_keeps_its_middle(text: Seq<char>, i: int, from: int, to: int)
    requires
        0 <= i <= from < to <= text.len(),
        is_gap(text, i, from),
        is_gap(text, to, text.len() as int),
        !is_white(text[from]),
        !is_white(text[to - 1]),
    ensures
        trimmed(text, i) == text.subrange(from, to),
{
    lemma_past_white_is(text, i, from);
    lemma_trimmed_end(text, from, text.len() as int, to);
}

/// What may be done with a mapping is told by its letters, each in its place.
pub proof fn permissions_are_told_by_letters(permissions: Seq<char>, has_path: bool)
    requires
        permissions.len() >= 3,
        forall|i: int| 0 <= i < 3 ==> (#[trigger] permissions[i] as u32) < 0x80,
    ensures
        permission_bits(permissions, has_path) & 1 == 1 <==> permissions[0] == 'r',
        permission_bits(permissions, has_path) & 2 == 2 <==> permissions[1] == 'w',
        permission_bits(permissions, has_path) & 4 == 4 <==> permissions[2] == 'x',
        permission_bits(permissions, has_path) & 8 == 8 <==> has_path,
{
    let r: u64 = if permits(permissions, 0, 'r') {
        1
    } else {
        0
    };
    let w: u64 = if permits(permissions, 1, 'w') {
        2
    } else {
        0
    };
    let x: u64 = if permits(permissions, 2, 'x') {
        4
    } else {
        0
    };
    let p: u64 = if has_path {
        8
    } else {
        0
    };
    let all = r | w | x | p;
    assert((all & 1 == 1 <==> r == 1) && (all & 2 == 2 <==> w == 2) && (all & 4 == 4 <==> x == 4)
        && (all & 8 == 8 <==> p == 8)) by (bit_vector)
        requires
            all == r | w | x | p,
            r == 1 || r == 0,
            w == 2 || w == 0,
            x == 4 || x == 0,
            p == 8 || p == 0,
    ;
}

proof fn lemma_past_slash_is(path: Seq<char>, n: int, at: int)
    requires
        0 <= at <= n <= path.len(),
        at > 0 ==> path[at - 1] == '/',
        forall|i: int| at <= i < n ==> #[trigger] path[i] != '/',
    ensures
        past_slash(path, n) == at,
    decreases n,
{
    if n > at {
        assert(path[n - 1] != '/');
        lemma_past_slash_is(path, n - 1, at);
    }
}

/// A file's name is what stands behind the last slash of its path.
pub proof fn a_file_is_named_behind_the_last_slash(front: Seq<char>, name: Seq<char>)
    requires
        name.len() > 0,
        !name.contains('/'),
        name != seq!['.'],
        name != seq!['.', '.'],
    ensures
        file_name_of(front + seq!['/'] + name) == Some(name),
        file_name_of(name) == Some(name),
{
    let path = front + seq!['/'] + name;
    let at = front.len() as int + 1;
    assert(path.last() == name.last());
    assert(name.contains(name[name.len() - 1]));
    assert(without_slashes(path) == path);
    assert(without_slashes(name) == name);
    assert forall|i: int| at <= i < path.len() implies #[trigger] path[i] != '/' by {
        assert(path[i] == name[i - at]);
        assert(name.contains(name[i - at]));
    }
    assert forall|i: int| 0 <= i < name.len() implies #[trigger] name[i] != '/' by {
        assert(name.contains(name[i]));
    }
    lemma_past_slash_is(path, path.len() as int, at);
    lemma_past_slash_is(name, name.len() as int, 0);
    assert(path.skip(at) =~= name);
    assert(name.skip(0) =~= name);
}

proof fn lemma_bracket(stat: Seq<char>, n: int, at: int)
    requires
        0 < at <= n <= stat.len(),
        stat[at - 1] == ')',
        forall|i: int| at <= i < n ==> #[trigger] stat[i] != ')',
    ensures
        past_bracket(stat, n) == Some(at),
    decreases n,
{
    if n > at {
        assert(stat[n - 1] != ')');
        lemma_bracket(stat, n - 1, at);
    }
}

/// A process's state is the letter behind its name, whatever brackets and spaces
/// the name has in it.
pub proof fn a_state_stands_behind_the_name(front: Seq<char>, gap: Seq<char>, rest: Seq<char>)
    requires
        is_blank(gap),
        rest.len() > 0,
        !is_white(rest[0]),
        !gap.contains(')'),
        !rest.contains(')'),
    ensures
        state_in(front + seq![')'] + gap + rest) == Some(rest[0]),
{
    let stat = front + seq![')'] + gap + rest;
    let at = front.len() as int + 1;
    let from = at + gap.len();
    assert(stat[at - 1] == ')');
    assert forall|i: int| at <= i < stat.len() implies #[trigger] stat[i] != ')' by {
        if i < from {
            assert(stat[i] == gap[i - at]);
            assert(gap.contains(gap[i - at]));
        } else {
            assert(stat[i] == rest[i - from]);
            assert(rest.contains(rest[i - from]));
        }
    }
    lemma_bracket(stat, stat.len() as int, at);
    assert forall|i: int| at <= i < from implies is_white(#[trigger] stat[i]) by {
        assert(stat[i] == gap[i - at]);
    }
    assert(stat[from] == rest[0]);
    lemma_past_white_is(stat, at, from);
}

proof fn lemma_place_from(whole: Seq<char>, part: Seq<char>, i: int, at: int)
    requires
        0 <= i <= at,
        stands_at(whole, part, at),
        forall|k: int| i <= k < at ==> !stands_at(whole, part, k),
    ensures
        place_from(whole, part, i) == Some(at),
    decreases at - i,
{
    if i < at {
        assert(!stands_at(whole, part, i));
        lemma_place_from(whole, part, i + 1, at);
    }
}

/// The game's directory is what stands in front of the first mention of its data.
pub proof fn the_game_is_where_its_data_is(path: Seq<char>, at: int)
    requires
        stands_at(path, "/Timberborn_Data/"@, at),
        forall|k: int| 0 <= k < at ==> !stands_at(path, "/Timberborn_Data/"@, k),
    ensures
        dir_in(Some(path)) == Some(path.take(at)),
{
    lemma_place_from(path, "/Timberborn_Data/"@, 0, at);
}

/// What the timer was told comes before what was said, and the first of each
/// comes before the rest.
pub proof fn the_first_thing_done_is_the_reason(
    log: Seq<String>,
    seen_log: int,
    events: Seq<TimerEvent>,
    seen: int,
    k: int,
)
    requires
        0 <= seen <= k < events.len(),
        described(events[k]) is Some,
        forall|j: int| seen <= j < k ==> described(#[trigger] events[j]) is None,
    ensures
        reason_of(log, seen_log, events, seen) == described(events[k]),
        events[k] is Start ==> described(events[k]) == Some("start"@),
        events[k] is Split ==> described(events[k]) == Some("split"@),
        events[k] is Reset ==> described(events[k]) == Some("reset"@),
        events[k] is UndoSplit ==> described(events[k]) == Some("undo-split"@),
        events[k] is SkipSplit ==> described(events[k]) == Some("skip-split"@),
{
    lemma_done(events, seen, k);
}

proof fn lemma_done(events: Seq<TimerEvent>, i: int, k: int)
    requires
        0 <= i <= k < events.len(),
        described(events[k]) is Some,
        forall|j: int| i <= j < k ==> described(#[trigger] events[j]) is None,
    ensures
        done_from(events, i) == described(events[k]),
    decreases k - i,
{
    if i < k {
        assert(described(events[i]) is None);
        lemma_done(events, i + 1, k);
    }
}

proof fn lemma_none_done(events: Seq<TimerEvent>, i: int)
    requires
        0 <= i,
        forall|j: int| i <= j < events.len() ==> described(#[trigger] events[j]) is None,
    ensures
        done_from(events, i) is None,
    decreases events.len() - i,
{
    if i < events.len() {
        assert(described(events[i]) is None);
        lemma_none_done(events, i + 1);
    }
}

proof fn lemma_said(log: Seq<String>, i: int, k: int)
    requires
        0 <= i <= k < log.len(),
        !is_noise(log[k]@),
        forall|j: int| i <= j < k ==> is_noise((#[trigger] log[j])@),
    ensures
        said_from(log, i) == Some(slug(log[k]@, 0, 5, true)),
    decreases k - i,
{
    if i < k {
        assert(is_noise(log[i]@));
        lemma_said(log, i + 1, k);
    }
}

/// Where the timer was told nothing, the first line that is no noise is the
/// reason, in five words of it.
pub proof fn the_first_line_that_matters_is_the_reason(
    log: Seq<String>,
    seen_log: int,
    events: Seq<TimerEvent>,
    seen: int,
    k: int,
)
    requires
        0 <= seen,
        forall|j: int| seen <= j < events.len() ==> described(#[trigger] events[j]) is None,
        0 <= seen_log <= k < log.len(),
        !is_noise(log[k]@),
        forall|j: int| seen_log <= j < k ==> is_noise((#[trigger] log[j])@),
    ensures
        reason_of(log, seen_log, events, seen) == Some(slug(log[k]@, 0, 5, true)),
{
    lemma_none_done(events, seen);
    lemma_said(log, seen_log, k);
}

/// A letter or a digit, as a name has it: no capital among them.
pub open spec fn is_plain(c: char) -> bool {
    'a' <= c <= 'z' || '0' <= c <= '9'
}

/// Whether a name is plain words with one dash between any two: never at an end,
/// never two in a row.
pub open spec fn is_name(name: Seq<char>) -> bool {
    &&& forall|i: int|
        0 <= i < name.len() ==> is_plain(#[trigger] name[i]) || name[i] == '-' && 0 < i
            && i + 1 < name.len()
    &&& forall|i: int, j: int|
        0 <= i && j == i + 1 && j < name.len() ==> !(#[trigger] name[i] == '-' && #[trigger] name[j]
            == '-')
}

proof fn lemma_word_from(line: Seq<char>, i: int)
    requires
        0 <= i <= line.len(),
    ensures
        i <= word_from(line, i) <= line.len(),
        word_from(line, i) < line.len() ==> is_word_char(line[word_from(line, i)]),
    decreases line.len() - i,
{
    if i < line.len() && !is_word_char(line[i]) {
        lemma_word_from(line, i + 1);
    }
}

proof fn lemma_word_to(line: Seq<char>, i: int)
    requires
        0 <= i <= line.len(),
    ensures
        i <= word_to(line, i) <= line.len(),
        i < line.len() && is_word_char(line[i]) ==> i < word_to(line, i),
        forall|k: int| i <= k < word_to(line, i) ==> is_word_char(#[trigger] line[k]),
    decreases line.len() - i,
{
    if i < line.len() && is_word_char(line[i]) {
        lemma_word_to(line, i + 1);
    }
}

proof fn lemma_slug(line: Seq<char>, i: int, n: int, first: bool)
    requires
        0 <= i <= line.len(),
    ensures
        first ==> is_name(slug(line, i, n, true)),
        !first ==> slug(line, i, n, false).len() == 0 || (slug(line, i, n, false)[0] == '-' && slug(
            line,
            i,
            n,
            false,
        ).len() > 1 && is_name(slug(line, i, n, false).skip(1))),
    decreases n,
{
    let from = word_from(line, i);
    lemma_word_from(line, i);
    if n > 0 && from < line.len() {
        let to = word_to(line, from);
        lemma_word_to(line, from);
        let word = line.subrange(from, to).map_values(|c: char| lowered(c));
        assert forall|k: int| 0 <= k < word.len() implies is_plain(#[trigger] word[k]) by {
            assert(is_word_char(line[from + k]));
        }
        lemma_slug(line, to, n - 1, false);
        let rest = slug(line, to, n - 1, false);
        let name = word + rest;
        assert(is_name(name)) by {
            assert forall|k: int| 0 <= k < name.len() implies is_plain(#[trigger] name[k])
                || name[k] == '-' && 0 < k && k + 1 < name.len() by {
                if k < word.len() {
                    assert(name[k] == word[k]);
                } else {
                    let at = k - word.len();
                    assert(name[k] == rest[at]);
                    if at > 0 {
                        assert(rest.skip(1)[at - 1] == rest[at]);
                    }
                }
            }
            assert forall|a: int, b: int|
                0 <= a && b == a + 1 && b < name.len() implies !(#[trigger] name[a] == '-'
                && #[trigger] name[b] == '-') by {
                if b < word.len() {
                    assert(name[b] == word[b]);
                } else if a < word.len() {
                    assert(name[a] == word[a]);
                } else {
                    let at = a - word.len();
                    assert(name[a] == rest[at] && name[b] == rest[at + 1]);
                    assert(rest.skip(1)[at] == rest[at + 1]);
                    if at > 0 {
                        assert(rest.skip(1)[at - 1] == rest[at]);
                    }
                }
            }
        }
        assert(Seq::<char>::empty() + word + rest =~= name);
        assert((seq!['-'] + word + rest).skip(1) =~= name);
    }
}

/// A line is summed up in a name: small letters, digits, and dashes between the
/// words, which are five at most.
pub proof fn a_summary_is_a_name(line: Seq<char>)
    ensures
        is_name(slug(line, 0, 5, true)),
        dashes(slug(line, 0, 5, true)) <= 4,
{
    lemma_slug(line, 0, 5, true);
    lemma_dashes(line, 0, 5, true);
}

/// How many dashes a name has.
pub open spec fn dashes(name: Seq<char>) -> int
    decreases name.len(),
{
    if name.len() == 0 {
        0
    } else {
        dashes(name.drop_last()) + if name.last() == '-' {
            1int
        } else {
            0
        }
    }
}

proof fn lemma_dashes_both(a: Seq<char>, b: Seq<char>)
    ensures
        dashes(a + b) == dashes(a) + dashes(b),
    decreases b.len(),
{
    if b.len() == 0 {
        assert(a + b =~= a);
    } else {
        assert((a + b).drop_last() =~= a + b.drop_last());
        assert((a + b).last() == b.last());
        lemma_dashes_both(a, b.drop_last());
    }
}

proof fn lemma_no_dashes(a: Seq<char>)
    requires
        forall|i: int| 0 <= i < a.len() ==> is_plain(#[trigger] a[i]),
    ensures
        dashes(a) == 0,
    decreases a.len(),
{
    if a.len() > 0 {
        assert forall|i: int| 0 <= i < a.drop_last().len() implies is_plain(
            #[trigger] a.drop_last()[i],
        ) by {
            assert(a.drop_last()[i] == a[i]);
        }
        lemma_no_dashes(a.drop_last());
        assert(is_plain(a[a.len() - 1]));
    }
}

proof fn lemma_dashes(line: Seq<char>, i: int, n: int, first: bool)
    requires
        0 <= i <= line.len(),
        0 <= n,
    ensures
        dashes(slug(line, i, n, first)) <= if first && n > 0 {
            n - 1
        } else {
            n
        },
    decreases n,
{
    let from = word_from(line, i);
    lemma_word_from(line, i);
    if n > 0 && from < line.len() {
        let to = word_to(line, from);
        lemma_word_to(line, from);
        let word = line.subrange(from, to).map_values(|c: char| lowered(c));
        assert forall|k: int| 0 <= k < word.len() implies is_plain(#[trigger] word[k]) by {
            assert(is_word_char(line[from + k]));
        }
        lemma_no_dashes(word);
        lemma_dashes(line, to, n - 1, false);
        let rest = slug(line, to, n - 1, false);
        let front: Seq<char> = if first {
            Seq::empty()
        } else {
            seq!['-']
        };
        lemma_dashes_both(front, word);
        lemma_dashes_both(front + word, rest);
        let dash = seq!['-'];
        assert(dash.drop_last() =~= Seq::<char>::empty());
        assert(dashes(dash.drop_last()) == 0);
        assert(dash.last() == '-');
        assert(dashes(dash) == 1);
        assert(front == dash || front.len() == 0);
    }
}

/// The words of a summary are those of the line: what is in front of the first
/// word does not show, and the word itself does, in small letters.
pub proof fn a_summary_begins_with_the_first_word(
    gap: Seq<char>,
    word: Seq<char>,
    rest: Seq<char>,
)
    requires
        forall|i: int| 0 <= i < gap.len() ==> !is_word_char(#[trigger] gap[i]),
        word.len() > 0,
        forall|i: int| 0 <= i < word.len() ==> is_word_char(#[trigger] word[i]),
        rest.len() > 0 ==> !is_word_char(rest[0]),
    ensures
        stands_at(
            slug(gap + word + rest, 0, 5, true),
            word.map_values(|c: char| lowered(c)),
            0,
        ),
{
    let line = gap + word + rest;
    let from = gap.len() as int;
    let to = from + word.len();
    assert forall|i: int| 0 <= i < from implies !is_word_char(#[trigger] line[i]) by {
        assert(line[i] == gap[i]);
    }
    assert forall|i: int| from <= i < to implies is_word_char(#[trigger] line[i]) by {
        assert(line[i] == word[i - from]);
    }
    lemma_word_from_is(line, 0, from);
    if to < line.len() {
        assert(line[to] == rest[0]);
    }
    lemma_word_to_is(line, from, to);
    assert(line.subrange(from, to) =~= word);
    let small = word.map_values(|c: char| lowered(c));
    let all = slug(line, 0, 5, true);
    assert(all =~= small + slug(line, to, 4, false));
    assert(all.subrange(0, small.len() as int) =~= small);
}

proof fn lemma_word_from_is(line: Seq<char>, i: int, at: int)
    requires
        0 <= i <= at <= line.len(),
        forall|k: int| i <= k < at ==> !is_word_char(#[trigger] line[k]),
        at < line.len() ==> is_word_char(line[at]),
    ensures
        word_from(line, i) == at,
    decreases at - i,
{
    if i < at {
        assert(!is_word_char(line[i]));
        lemma_word_from_is(line, i + 1, at);
    }
}

proof fn lemma_word_to_is(line: Seq<char>, i: int, at: int)
    requires
        0 <= i <= at <= line.len(),
        forall|k: int| i <= k < at ==> is_word_char(#[trigger] line[k]),
        at < line.len() ==> !is_word_char(line[at]),
    ensures
        word_to(line, i) == at,
    decreases at - i,
{
    if i < at {
        assert(is_word_char(line[i]));
        lemma_word_to_is(line, i + 1, at);
    }
}

} // verus!
