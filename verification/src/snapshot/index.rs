//! Where a capture's bytes are: records held in address order, and the chunk
//! index as it is written to disk.
use vstd::bytes::{
    lemma_auto_spec_u64_to_from_le_bytes, spec_u64_from_le_bytes, spec_u64_to_le_bytes,
    u64_from_le_bytes, u64_to_le_bytes,
};
use vstd::prelude::*;
use vstd::slice::slice_subrange;

verus! {

/// How many bytes one record of the index takes: address, length and offset.
pub const RECORD: usize = 24;

/// A run of bytes held in a capture's own blob.
#[derive(Clone, Copy, PartialEq, Eq, Structural, Debug)]
pub struct Chunk {
    pub address: u64,
    pub len: u64,
    pub offset: u64,
}

impl Chunk {
    /// Whether the byte at `at` is one of the chunk's.
    pub open spec fn covers(self, at: int) -> bool {
        self.address <= at < self.address + self.len
    }
}

/// A mapping that was captured, and whether it could be read at all.
#[derive(Clone, Copy, PartialEq, Eq, Structural, Debug)]
pub struct Stored {
    pub address: u64,
    pub size: u64,
    pub readable: bool,
}

/// Something that lies at an address.
pub trait Placed: Copy {
    spec fn place(self) -> u64;

    fn address(&self) -> (address: u64)
        ensures
            address == self.place(),
    ;
}

impl Placed for Chunk {
    open spec fn place(self) -> u64 {
        self.address
    }

    fn address(&self) -> (address: u64) {
        self.address
    }
}

impl Placed for Stored {
    open spec fn place(self) -> u64 {
        self.address
    }

    fn address(&self) -> (address: u64) {
        self.address
    }
}

/// In address order.
pub open spec fn in_order<T: Placed>(items: Seq<T>) -> bool {
    forall|i: int, j: int|
        0 <= i < j < items.len() ==> (#[trigger] items[i]).place() <= (#[trigger] items[j]).place()
}

/// How many of `items` come before the first one above `address`: one past the
/// last that lies at or below it.
pub open spec fn upto<T: Placed>(items: Seq<T>, address: u64) -> int
    decreases items.len(),
{
    if items.len() == 0 {
        0
    } else if items.last().place() <= address {
        items.len() as int
    } else {
        upto(items.drop_last(), address)
    }
}

/// `items` in address order; those that lie at one address keep their order.
pub open spec fn arranged<T: Placed>(items: Seq<T>) -> Seq<T>
    decreases items.len(),
{
    if items.len() == 0 {
        Seq::empty()
    } else {
        let before = arranged(items.drop_last());
        before.insert(upto(before, items.last().place()), items.last())
    }
}

pub proof fn lemma_upto<T: Placed>(items: Seq<T>, address: u64)
    requires
        in_order(items),
    ensures
        0 <= upto(items, address) <= items.len(),
        forall|i: int|
            0 <= i < upto(items, address) ==> (#[trigger] items[i]).place() <= address,
        forall|i: int|
            upto(items, address) <= i < items.len() ==> (#[trigger] items[i]).place() > address,
    decreases items.len(),
{
    if items.len() > 0 && items.last().place() > address {
        let init = items.drop_last();
        assert(in_order(init)) by {
            assert forall|i: int, j: int| 0 <= i < j < init.len() implies (
            #[trigger] init[i]).place() <= (#[trigger] init[j]).place() by {
                assert(items[i].place() <= items[j].place());
            }
        }
        lemma_upto(init, address);
        assert forall|i: int| 0 <= i < upto(items, address) implies (
        #[trigger] items[i]).place() <= address by {
            assert(init[i] == items[i]);
        }
        assert forall|i: int| upto(items, address) <= i < items.len() implies (
        #[trigger] items[i]).place() > address by {
            if i < init.len() {
                assert(init[i] == items[i]);
            }
        }
    } else if items.len() > 0 {
        let n = items.len() - 1;
        assert forall|i: int| 0 <= i < items.len() implies (#[trigger] items[i]).place()
            <= address by {
            if i < n {
                assert(items[i].place() <= items[n].place());
            }
        }
    }
}

/// Where the records split at `address`, [`upto`] is.
pub proof fn lemma_upto_is<T: Placed>(items: Seq<T>, address: u64, n: int)
    requires
        in_order(items),
        0 <= n <= items.len(),
        n > 0 ==> items[n - 1].place() <= address,
        n < items.len() ==> items[n].place() > address,
    ensures
        upto(items, address) == n,
{
    lemma_upto(items, address);
    let k = upto(items, address);
    if k < n {
        assert(items[k].place() > address);
        if k < n - 1 {
            assert(items[k].place() <= items[n - 1].place());
        }
    }
    if n < k {
        assert(items[n].place() <= address);
    }
}

/// Arranging puts in order, and neither adds nor drops anything.
pub proof fn lemma_arranged<T: Placed>(items: Seq<T>)
    ensures
        in_order(arranged(items)),
        arranged(items).len() == items.len(),
        forall|x: T| #[trigger] arranged(items).contains(x) <==> items.contains(x),
    decreases items.len(),
{
    if items.len() > 0 {
        let init = items.drop_last();
        let last = items.last();
        let before = arranged(init);
        let n = upto(before, last.place());
        let after = arranged(items);
        lemma_arranged(init);
        lemma_upto(before, last.place());
        assert forall|i: int| 0 <= i < after.len() implies #[trigger] after[i] == if i < n {
            before[i]
        } else if i == n {
            last
        } else {
            before[i - 1]
        } by {}
        assert forall|i: int, j: int| 0 <= i < j < after.len() implies (#[trigger] after[i]).place()
            <= (#[trigger] after[j]).place() by {
            let bi = if i < n {
                i
            } else {
                i - 1
            };
            let bj = if j < n {
                j
            } else {
                j - 1
            };
            if i != n && j != n {
                assert(before[bi].place() <= before[bj].place());
            } else if i == n {
                assert(before[bj].place() > last.place());
            } else {
                assert(before[i].place() <= last.place());
            }
        }
        assert forall|x: T| #[trigger] after.contains(x) <==> items.contains(x) by {
            if after.contains(x) {
                let i = after.index_of(x);
                if i == n {
                    assert(items[items.len() - 1] == x);
                } else {
                    let bi = if i < n {
                        i
                    } else {
                        i - 1
                    };
                    assert(before[bi] == x);
                    assert(before.contains(x));
                    assert(init.contains(x));
                    let k = init.index_of(x);
                    assert(items[k] == x);
                }
            }
            if items.contains(x) {
                let k = items.index_of(x);
                if k == items.len() - 1 {
                    assert(after[n] == x);
                } else {
                    assert(init[k] == x);
                    assert(init.contains(x));
                    assert(before.contains(x));
                    let i = before.index_of(x);
                    assert(after[if i < n {
                        i
                    } else {
                        i + 1
                    }] == x);
                }
            }
        }
    }
}

/// How many of `items` lie at or below `address`.
pub fn count_upto<T: Placed>(items: &Vec<T>, address: u64) -> (n: usize)
    requires
        in_order(items@),
    ensures
        n == upto(items@, address),
        n <= items@.len(),
{
    let mut low: usize = 0;
    let mut high: usize = items.len();
    while low < high
        invariant
            in_order(items@),
            low <= high <= items@.len(),
            low > 0 ==> items@[low - 1].place() <= address,
            high < items@.len() ==> items@[high as int].place() > address,
        decreases high - low,
    {
        let mid: usize = low + (high - low) / 2;
        if items[mid].address() <= address {
            low = mid + 1;
        } else {
            high = mid;
        }
    }
    proof {
        lemma_upto_is(items@, address, low as int);
    }
    low
}

/// The records in address order.
pub fn arrange<T: Placed>(items: &Vec<T>) -> (sorted: Vec<T>)
    ensures
        sorted@ == arranged(items@),
        in_order(sorted@),
{
    let mut sorted: Vec<T> = Vec::new();
    let mut i: usize = 0;
    while i < items.len()
        invariant
            i <= items@.len(),
            sorted@.len() == i,
            sorted@ == arranged(items@.take(i as int)),
        decreases items@.len() - i,
    {
        proof {
            lemma_arranged(items@.take(i as int));
            assert(items@.take(i + 1).drop_last() =~= items@.take(i as int));
        }
        let item: T = items[i];
        let n: usize = count_upto(&sorted, item.address());
        sorted.insert(n, item);
        i = i + 1;
    }
    proof {
        assert(items@.take(i as int) =~= items@);
        lemma_arranged(items@);
    }
    sorted
}

/// One record of the index, as bytes.
pub open spec fn record(chunk: Chunk) -> Seq<u8> {
    spec_u64_to_le_bytes(chunk.address) + spec_u64_to_le_bytes(chunk.len) + spec_u64_to_le_bytes(
        chunk.offset,
    )
}

/// The index of `chunks`, as bytes.
pub open spec fn records(chunks: Seq<Chunk>) -> Seq<u8>
    decreases chunks.len(),
{
    if chunks.len() == 0 {
        Seq::empty()
    } else {
        records(chunks.drop_last()) + record(chunks.last())
    }
}

/// What the record at `at` of an index says.
pub open spec fn record_at(bytes: Seq<u8>, at: int) -> Chunk {
    Chunk {
        address: spec_u64_from_le_bytes(bytes.subrange(at, at + 8)),
        len: spec_u64_from_le_bytes(bytes.subrange(at + 8, at + 16)),
        offset: spec_u64_from_le_bytes(bytes.subrange(at + 16, at + 24)),
    }
}

/// The chunks an index lists. What is left over after the last whole record is
/// passed over.
pub open spec fn listed(bytes: Seq<u8>) -> Seq<Chunk> {
    Seq::new(bytes.len() / 24, |i: int| record_at(bytes, 24 * i))
}

/// The index, as bytes: three little-endian words to a record.
pub fn encode_index(chunks: &Vec<Chunk>) -> (bytes: Vec<u8>)
    ensures
        bytes@ == records(chunks@),
{
    let mut bytes: Vec<u8> = Vec::new();
    let mut i: usize = 0;
    assert(records(chunks@.take(0)) =~= Seq::<u8>::empty());
    while i < chunks.len()
        invariant
            i <= chunks@.len(),
            bytes@ == records(chunks@.take(i as int)),
        decreases chunks@.len() - i,
    {
        let ghost before = bytes@;
        let mut address: Vec<u8> = u64_to_le_bytes(chunks[i].address);
        let mut len: Vec<u8> = u64_to_le_bytes(chunks[i].len);
        let mut offset: Vec<u8> = u64_to_le_bytes(chunks[i].offset);
        bytes.append(&mut address);
        bytes.append(&mut len);
        bytes.append(&mut offset);
        proof {
            assert(chunks@.take(i + 1).drop_last() =~= chunks@.take(i as int));
            assert(chunks@.take(i + 1).last() == chunks@[i as int]);
            assert(bytes@ =~= before + record(chunks@[i as int]));
        }
        i = i + 1;
    }
    assert(chunks@.take(i as int) =~= chunks@);
    bytes
}

/// The chunks that an index lists.
pub fn decode_index(bytes: &[u8]) -> (chunks: Vec<Chunk>)
    ensures
        chunks@ == listed(bytes@),
{
    let mut chunks: Vec<Chunk> = Vec::new();
    let total: usize = bytes.len();
    let mut at: usize = 0;
    while total - at >= RECORD
        invariant
            total == bytes@.len(),
            at <= total,
            at == 24 * chunks@.len(),
            forall|i: int| 0 <= i < chunks@.len() ==> #[trigger] chunks@[i] == record_at(bytes@, 24 * i),
        decreases total - at,
    {
        chunks.push(
            Chunk {
                address: u64_from_le_bytes(slice_subrange(bytes, at, at + 8)),
                len: u64_from_le_bytes(slice_subrange(bytes, at + 8, at + 16)),
                offset: u64_from_le_bytes(slice_subrange(bytes, at + 16, at + 24)),
            },
        );
        at = at + RECORD;
    }
    assert(chunks@.len() == bytes@.len() / 24);
    assert(chunks@ =~= listed(bytes@));
    chunks
}

proof fn lemma_records(chunks: Seq<Chunk>)
    ensures
        records(chunks).len() == 24 * chunks.len(),
        forall|i: int|
            0 <= i < chunks.len() ==> #[trigger] record_at(records(chunks), 24 * i) == chunks[i],
    decreases chunks.len(),
{
    if chunks.len() > 0 {
        let init = chunks.drop_last();
        let last = chunks.last();
        lemma_records(init);
        lemma_auto_spec_u64_to_from_le_bytes();
        let all = records(chunks);
        let front = records(init);
        let n = 24 * init.len() as int;
        assert(record(last).len() == 24);
        assert forall|i: int| 0 <= i < chunks.len() implies #[trigger] record_at(all, 24 * i)
            == chunks[i] by {
            if i < init.len() {
                let at = 24 * i;
                assert(all.subrange(at, at + 8) =~= front.subrange(at, at + 8));
                assert(all.subrange(at + 8, at + 16) =~= front.subrange(at + 8, at + 16));
                assert(all.subrange(at + 16, at + 24) =~= front.subrange(at + 16, at + 24));
                assert(record_at(front, 24 * i) == init[i]);
            } else {
                assert(24 * i == n);
                assert(all.subrange(n, n + 8) =~= spec_u64_to_le_bytes(last.address));
                assert(all.subrange(n + 8, n + 16) =~= spec_u64_to_le_bytes(last.len));
                assert(all.subrange(n + 16, n + 24) =~= spec_u64_to_le_bytes(last.offset));
            }
        }
    }
}

/// The index reads back as the chunks it was written from, in their order.
pub proof fn an_index_reads_back(chunks: Seq<Chunk>)
    ensures
        listed(records(chunks)) == chunks,
{
    lemma_records(chunks);
    assert(listed(records(chunks)) =~= chunks);
}

} // verus!
