//! Reading a process into a capture, mapping by mapping.
use vstd::prelude::*;

use crate::live::{Mapping, MappingView};
use crate::memory::flags::READ;
use crate::memory::{Memory, MemoryRange};
use crate::snapshot::writer::{blob_of, gathered, lemma_added_bounds, Writer};

verus! {

/// Read in pieces rather than whole ranges: a range can be hundreds of MiB, and
/// one failing page should not discard all of it.
pub const READ_CHUNK: usize = 1048576;

/// How a capture went.
pub struct Report {
    pub ranges: usize,
    pub bytes_written: u64,
    /// Ranges listed but unreadable, recorded without bytes.
    pub skipped: u64,
    /// Chunks that matched the base and were not stored again. Zero for a full
    /// capture, and the whole point of a delta.
    pub inherited: u64,
}

/// Whether a mapping goes into a capture.
pub open spec fn is_capturable(mapping: MappingView) -> bool {
    mapping.flags & READ != 0 && !mapping.special()
}

/// Which of the first `n` mappings go into a capture, in order.
pub open spec fn capturable_of(mappings: Seq<Mapping>, n: int) -> Seq<usize>
    decreases n,
{
    if n <= 0 {
        Seq::empty()
    } else if is_capturable(mappings[n - 1]@) {
        capturable_of(mappings, n - 1).push((n - 1) as usize)
    } else {
        capturable_of(mappings, n - 1)
    }
}

/// Which mappings go into a capture: those that can be read, and that are
/// ordinary memory.
pub fn capturable(mappings: &[Mapping]) -> (which: Vec<usize>)
    ensures
        which@ == capturable_of(mappings@, mappings@.len() as int),
{
    let mut which: Vec<usize> = Vec::new();
    let mut i: usize = 0;
    while i < mappings.len()
        invariant
            i <= mappings@.len(),
            which@ == capturable_of(mappings@, i as int),
        decreases mappings@.len() - i,
    {
        let mapping: &Mapping = &mappings[i];
        if mapping.readable() && !mapping.is_special() {
            which.push(i);
        }
        i = i + 1;
    }
    which
}

/// A part of a mapping: a run of it that could be read, with its bytes, or one
/// that could not.
pub struct Part {
    pub range: MemoryRange,
    pub bytes: Option<Vec<u8>>,
}

impl View for Part {
    type V = (MemoryRange, Option<Seq<u8>>);

    open spec fn view(&self) -> (MemoryRange, Option<Seq<u8>>) {
        (
            self.range,
            match self.bytes {
                Some(bytes) => Some(bytes@),
                None => None,
            },
        )
    }
}

/// What several parts say.
pub open spec fn part_views(parts: Seq<Part>) -> Seq<(MemoryRange, Option<Seq<u8>>)> {
    parts.map_values(|part: Part| part@)
}

/// Parts with one more piece behind them: it goes on with the last part where
/// both could be read or neither could, and begins a new one where not.
pub open spec fn with_piece(
    parts: Seq<(MemoryRange, Option<Seq<u8>>)>,
    piece: MemoryRange,
    bytes: Option<Seq<u8>>,
) -> Seq<(MemoryRange, Option<Seq<u8>>)> {
    if parts.len() > 0 && (parts.last().1 is Some) == (bytes is Some) {
        let (range, had) = parts.last();
        parts.drop_last().push(
            (
                MemoryRange { size: (range.size + piece.size) as u64, ..range },
                match (had, bytes) {
                    (Some(had), Some(bytes)) => Some(had + bytes),
                    _ => None,
                },
            ),
        )
    } else {
        parts.push((piece, bytes))
    }
}

/// Where the piece begins that ends at `at`.
pub open spec fn piece_start(at: int) -> int {
    (at - 1) / READ_CHUNK as int * READ_CHUNK as int
}

/// The parts of a mapping as far as `at`, read piece by piece.
pub open spec fn parts_upto<M: Memory>(memory: &M, range: MemoryRange, at: int) -> Seq<
    (MemoryRange, Option<Seq<u8>>),
>
    decreases at,
{
    if at <= 0 || at > range.size {
        Seq::empty()
    } else {
        let from = piece_start(at);
        let place = (range.address + from) as u64;
        with_piece(
            parts_upto(memory, range, from),
            MemoryRange { address: place, size: (at - from) as u64, flags: range.flags },
            memory.contents(place, (at - from) as nat),
        )
    }
}

/// The parts of a mapping: one where it can be read whole, or not at all.
pub open spec fn parts_of<M: Memory>(memory: &M, range: MemoryRange) -> Seq<
    (MemoryRange, Option<Seq<u8>>),
> {
    if range.size == 0 {
        seq![(range, Some(Seq::empty()))]
    } else {
        parts_upto(memory, range, range.size as int)
    }
}

/// Whether parts make up a range as far as `at`, one behind the other: each that
/// could be read with as many bytes as it is long, and none empty.
pub open spec fn make_up(
    parts: Seq<(MemoryRange, Option<Seq<u8>>)>,
    range: MemoryRange,
    at: int,
) -> bool {
    &&& forall|i: int|
        0 <= i < parts.len() ==> {
            let (part, bytes) = #[trigger] parts[i];
            &&& part.flags == range.flags
            &&& part.size > 0
            &&& bytes matches Some(bytes) ==> bytes.len() == part.size
        }
    &&& parts.len() > 0 ==> parts[0].0.address == range.address
    &&& forall|i: int, j: int|
        0 <= i && j == i + 1 && j < parts.len() ==> #[trigger] parts[i].0.address + parts[i].0.size
            == #[trigger] parts[j].0.address
    &&& parts.len() > 0 ==> parts.last().0.address + parts.last().0.size == range.address + at
    &&& parts.len() == 0 ==> at == 0
}

proof fn lemma_with_piece(
    parts: Seq<(MemoryRange, Option<Seq<u8>>)>,
    range: MemoryRange,
    at: int,
    piece: MemoryRange,
    bytes: Option<Seq<u8>>,
)
    requires
        make_up(parts, range, at),
        0 <= at,
        piece.address == range.address + at,
        piece.size > 0,
        piece.flags == range.flags,
        at + piece.size <= range.size,
        bytes matches Some(bytes) ==> bytes.len() == piece.size,
    ensures
        make_up(with_piece(parts, piece, bytes), range, at + piece.size),
{
    let after = with_piece(parts, piece, bytes);
    let n = parts.len() as int;
    let grows = n > 0 && (parts.last().1 is Some) == (bytes is Some);
    if n > 0 {
        lemma_address(parts, range, at, n - 1);
    }
    assert forall|i: int| 0 <= i < after.len() implies {
        let (part, bytes) = #[trigger] after[i];
        &&& part.flags == range.flags
        &&& part.size > 0
        &&& bytes matches Some(bytes) ==> bytes.len() == part.size
    } by {
        if i < n {
            assert(parts[i].0.flags == range.flags);
        }
    }
    assert forall|i: int, j: int|
        0 <= i && j == i + 1 && j < after.len() implies #[trigger] after[i].0.address
        + after[i].0.size == #[trigger] after[j].0.address by {
        if j < n {
            assert(parts[i].0.address + parts[i].0.size == parts[j].0.address);
        }
    }
}

/// A part lies inside what the parts make up.
proof fn lemma_address(
    parts: Seq<(MemoryRange, Option<Seq<u8>>)>,
    range: MemoryRange,
    at: int,
    i: int,
)
    requires
        make_up(parts, range, at),
        0 <= i < parts.len(),
    ensures
        range.address <= parts[i].0.address,
        parts[i].0.address + parts[i].0.size <= range.address + at,
    decreases parts.len() - i,
{
    lemma_begins(parts, range, at, i);
    if i + 1 < parts.len() {
        lemma_address(parts, range, at, i + 1);
        assert(parts[i].0.address + parts[i].0.size == parts[i + 1].0.address);
        assert(parts[i + 1].0.size > 0);
    }
}

proof fn lemma_begins(
    parts: Seq<(MemoryRange, Option<Seq<u8>>)>,
    range: MemoryRange,
    at: int,
    i: int,
)
    requires
        make_up(parts, range, at),
        0 <= i < parts.len(),
    ensures
        range.address <= parts[i].0.address,
    decreases i,
{
    if i > 0 {
        lemma_begins(parts, range, at, i - 1);
        assert(parts[i - 1].0.address + parts[i - 1].0.size == parts[i].0.address);
    }
}

/// Reads a mapping piece by piece. A piece that cannot be read is a part of its
/// own, and what lies around it is kept.
pub fn read_range<M: Memory>(memory: &M, range: MemoryRange) -> (parts: Vec<Part>)
    requires
        range.address + range.size <= 0x1_0000_0000_0000_0000,
    ensures
        part_views(parts@) == parts_of(memory, range),
        range.size > 0 ==> make_up(part_views(parts@), range, range.size as int),
{
    let mut parts: Vec<Part> = Vec::new();
    let size: u64 = range.size;
    if size == 0 {
        parts.push(Part { range, bytes: Some(Vec::new()) });
        assert(part_views(parts@)[0].1->0 =~= Seq::<u8>::empty());
        assert(part_views(parts@) =~= parts_of(memory, range));
        return parts;
    }
    let mut at: u64 = 0;
    assert(part_views(parts@) =~= parts_upto(memory, range, 0));
    while at < size
        invariant
            at <= size,
            size == range.size,
            range.address + range.size <= 0x1_0000_0000_0000_0000,
            at < size ==> at % READ_CHUNK as u64 == 0,
            part_views(parts@) == parts_upto(memory, range, at as int),
            make_up(part_views(parts@), range, at as int),
        decreases size - at,
    {
        let want: usize = if size - at < READ_CHUNK as u64 {
            (size - at) as usize
        } else {
            READ_CHUNK
        };
        let ghost end = at + want;
        assert(piece_start(end) == at) by {
            assert((end - 1) / READ_CHUNK as int == at as int / READ_CHUNK as int);
        }
        let place: u64 = (range.address as u128 + at as u128) as u64;
        let piece = MemoryRange { address: place, size: want as u64, flags: range.flags };
        let ghost before = part_views(parts@);
        let mut read: Vec<u8> = vec![0u8; want];
        let ok = memory.read(place, read.as_mut_slice());
        let ghost bytes = if ok {
            Some(read@)
        } else {
            None
        };
        proof {
            lemma_with_piece(before, range, at as int, piece, bytes);
            if before.len() > 0 {
                lemma_address(before, range, at as int, before.len() - 1);
            }
            assert(bytes == memory.contents(place, want as nat));
        }
        let n: usize = parts.len();
        let grows = n > 0 && parts[n - 1].bytes.is_some() == ok;
        assert(before.len() == n);
        if n > 0 {
            assert(before[n - 1] == parts@[n - 1]@);
        }
        let ghost had = parts@;
        if grows {
            match parts.pop() {
                Some(last) => {
                    let Part { range: was, bytes: held } = last;
                    let longer = MemoryRange {
                        address: was.address,
                        size: was.size + want as u64,
                        flags: was.flags,
                    };
                    let all = match held {
                        Some(mut held) => {
                            held.append(&mut read);
                            Some(held)
                        },
                        None => None,
                    };
                    parts.push(Part { range: longer, bytes: all });
                },
                None => {},
            }
        } else {
            parts.push(
                Part {
                    range: piece,
                    bytes: if ok {
                        Some(read)
                    } else {
                        None
                    },
                },
            );
        }
        assert(part_views(parts@) =~= with_piece(before, piece, bytes));
        at = at + want as u64;
    }
    parts
}

/// Reads one mapping of a process into the capture being written, part by part,
/// and returns what the blob grows by.
pub fn capture<M: Memory>(writer: &mut Writer, memory: &M, mapping: &Mapping) -> (fresh: Vec<u8>)
    requires
        mapping.address + mapping.size <= 0x1_0000_0000_0000_0000,
        old(writer)@.skipped + mapping.size < u64::MAX,
        old(writer)@.written + mapping.size <= u64::MAX,
        old(writer)@.inherited + mapping.size <= u64::MAX,
    ensures
        final(writer)@ == gathered(old(writer)@, parts_of(memory, mapping@.range())),
        fresh@ == blob_of(old(writer)@, parts_of(memory, mapping@.range())),
        final(writer)@.skipped <= old(writer)@.skipped + mapping.size,
        final(writer)@.written <= old(writer)@.written + mapping.size,
        final(writer)@.inherited <= old(writer)@.inherited + mapping.size,
{
    let range = mapping.to_range();
    let parts = read_range(memory, range);
    let ghost start = writer@;
    let ghost all = part_views(parts@);
    let mut fresh: Vec<u8> = Vec::new();
    let mut i: usize = 0;
    let ghost mut done: int = 0;
    assert(all.take(0) =~= Seq::<(MemoryRange, Option<Seq<u8>>)>::empty());
    assert(fresh@ =~= blob_of(start, all.take(0)));
    while i < parts.len()
        invariant
            i <= parts@.len(),
            all == part_views(parts@),
            all == parts_of(memory, range),
            range.size > 0 ==> make_up(all, range, range.size as int),
            range.size == mapping.size,
            range.address + range.size <= 0x1_0000_0000_0000_0000,
            start.skipped + mapping.size < u64::MAX,
            start.written + mapping.size <= u64::MAX,
            start.inherited + mapping.size <= u64::MAX,
            writer@ == gathered(start, all.take(i as int)),
            fresh@ == blob_of(start, all.take(i as int)),
            0 <= done <= range.size,
            i < parts@.len() ==> done == all[i as int].0.address - range.address,
            writer@.skipped <= start.skipped + done,
            writer@.written <= start.written + done,
            writer@.inherited <= start.inherited + done,
        decreases parts@.len() - i,
    {
        let ghost before = writer@;
        let ghost next = all.take(i + 1);
        let ghost part = all[i as int];
        proof {
            assert(next.drop_last() =~= all.take(i as int));
            assert(next.last() == part);
            assert(part == parts@[i as int]@);
            if range.size > 0 {
                lemma_address(all, range, range.size as int, i as int);
                if i + 1 < all.len() {
                    lemma_address(all, range, range.size as int, i + 1);
                    assert(all[i as int].0.address + all[i as int].0.size == all[i + 1].0.address);
                }
            } else {
                assert(all.len() == 1);
            }
            lemma_added_bounds(before, part.0, part.1);
        }
        let mut more = match &parts[i].bytes {
            Some(bytes) => writer.add_range(parts[i].range, Some(bytes.as_slice())),
            None => writer.add_range(parts[i].range, None),
        };
        let ghost had = fresh@;
        fresh.append(&mut more);
        assert(fresh@ =~= blob_of(start, next));
        proof {
            done = done + part.0.size;
        }
        i = i + 1;
    }
    assert(all.take(i as int) =~= all);
    fresh
}

/// How the capture went, over `ranges` mappings.
pub fn report(writer: &Writer, ranges: usize) -> (report: Report)
    ensures
        report.ranges == ranges,
        report.bytes_written == writer@.written,
        report.skipped == writer@.skipped,
        report.inherited == writer@.inherited,
{
    Report {
        ranges,
        bytes_written: writer.bytes_written(),
        skipped: writer.skipped(),
        inherited: writer.inherited(),
    }
}

} // verus!
