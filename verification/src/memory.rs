//! The seam everything else hangs off: a process with readable memory.
//!
//! A [`Memory`] answers reads at addresses and nothing else. A live process, a
//! capture of one and a hand-built address space all plug in here, and neither
//! changes anything above this file.
//!
//! Contracts speak of a memory through [`Memory::contents`], and so of one that
//! holds still while a call runs. Work that spans several ticks is written as
//! steps, each of which takes the memory anew, so nothing is claimed across the
//! moments in which a running game writes to it.
pub mod flags;

use vstd::bytes::{
    spec_u32_from_le_bytes, spec_u64_from_le_bytes, spec_u64_to_le_bytes, u32_from_le_bytes,
    u64_from_le_bytes, u64_to_le_bytes,
};
use vstd::prelude::*;
use vstd::slice::slice_subrange;

use crate::metadata::Module;
use crate::text::owned;

verus! {

/// Whether a read of `len` bytes at `address` could come to this.
pub closed spec fn is_answer(address: u64, len: nat, found: Option<Seq<u8>>) -> bool {
    found matches Some(bytes) ==> bytes.len() == len
}

/// A process's address space.
///
/// What is proved of a tick is proved of a memory that stands still for it. A
/// live process's does not quite, which is why nothing that is read is taken for
/// granted on the next tick.
pub trait Memory {
    /// The `len` bytes at `address`, or `None` when a read of exactly that range
    /// fails.
    ///
    /// Of a memory that does not say, nothing is known but that it answers with
    /// as many bytes as it is asked for, if at all.
    open spec fn contents(&self, address: u64, len: nat) -> Option<Seq<u8>> {
        choose|found: Option<Seq<u8>>| is_answer(address, len, found)
    }

    /// Fills `buf` from `address`. Returns false if any byte of the range is
    /// unreadable: a partial read is never reported as success.
    fn read(&self, address: u64, buf: &mut [u8]) -> (ok: bool)
        ensures
            final(buf)@.len() == old(buf)@.len(),
            ok == (self.contents(address, old(buf)@.len()) is Some),
            ok ==> final(buf)@ == self.contents(address, old(buf)@.len())->0,
            ok && old(buf)@.len() > 0 ==> address + old(buf)@.len() <= 0x1_0000_0000_0000_0000,
    ;
}

/// Whatever lies inside a range that can be read can be read on its own, and
/// reads the same.
pub open spec fn is_coherent<M: Memory>(memory: &M) -> bool {
    forall|address: u64, len: nat, at: u64, n: nat|
        n > 0 && address <= at && at + n <= address + len && (#[trigger] memory.contents(
            address,
            len,
        )) is Some ==> #[trigger] memory.contents(at, n) == Some(
            memory.contents(address, len)->0.subrange(at - address, at - address + n),
        )
}

/// `address + offset`, wrapping at the top of the address space.
pub open spec fn plus(address: u64, offset: u64) -> u64 {
    if address + offset > u64::MAX {
        (address + offset - 0x1_0000_0000_0000_0000) as u64
    } else {
        (address + offset) as u64
    }
}

/// The little-endian word at `at`, where it can be read.
pub open spec fn u64_at<M: Memory>(memory: &M, at: u64) -> Option<u64> {
    match memory.contents(at, 8) {
        Some(bytes) => Some(spec_u64_from_le_bytes(bytes)),
        None => None,
    }
}

/// The 32-bit unsigned number at `at`, where it can be read.
pub open spec fn u32_at<M: Memory>(memory: &M, at: u64) -> Option<u32> {
    match memory.contents(at, 4) {
        Some(bytes) => Some(spec_u32_from_le_bytes(bytes)),
        None => None,
    }
}

/// The 32-bit signed number at `at`, where it can be read.
pub open spec fn i32_at<M: Memory>(memory: &M, at: u64) -> Option<i32> {
    match memory.contents(at, 4) {
        Some(bytes) => Some(signed32(spec_u32_from_le_bytes(bytes))),
        None => None,
    }
}

/// The 64-bit signed number at `at`, where it can be read.
pub open spec fn i64_at<M: Memory>(memory: &M, at: u64) -> Option<i64> {
    match memory.contents(at, 8) {
        Some(bytes) => Some(signed64(spec_u64_from_le_bytes(bytes))),
        None => None,
    }
}

/// The byte at `at`, where it can be read.
pub open spec fn u8_at<M: Memory>(memory: &M, at: u64) -> Option<u8> {
    match memory.contents(at, 1) {
        Some(bytes) => Some(bytes[0]),
        None => None,
    }
}

/// A reference held at `at`: the word there, where it can be read and is not
/// null.
pub open spec fn pointer_at<M: Memory>(memory: &M, at: u64) -> Option<u64> {
    match u64_at(memory, at) {
        Some(word) => if word == 0 {
            None
        } else {
            Some(word)
        },
        None => None,
    }
}

/// A reference held in the field `offset` of the object at `base`.
pub open spec fn field_pointer<M: Memory>(memory: &M, base: u64, offset: u32) -> Option<u64> {
    pointer_at(memory, plus(base, offset as u64))
}

/// Two's complement reading of 32 bits.
pub open spec fn signed32(bits: u32) -> i32 {
    if bits < 0x8000_0000 {
        bits as i32
    } else {
        (bits - 0x1_0000_0000) as i32
    }
}

/// Two's complement reading of 64 bits.
pub open spec fn signed64(bits: u64) -> i64 {
    if bits < 0x8000_0000_0000_0000 {
        bits as i64
    } else {
        (bits - 0x1_0000_0000_0000_0000) as i64
    }
}

pub fn to_signed32(bits: u32) -> (value: i32)
    ensures
        value == signed32(bits),
{
    if bits < 0x8000_0000 {
        bits as i32
    } else {
        (bits as i64 - 0x1_0000_0000i64) as i32
    }
}

pub fn to_signed64(bits: u64) -> (value: i64)
    ensures
        value == signed64(bits),
{
    if bits < 0x8000_0000_0000_0000 {
        bits as i64
    } else {
        (bits as i128 - 0x1_0000_0000_0000_0000i128) as i64
    }
}

/// `address + offset`, wrapping at the top of the address space.
pub fn offset_by(address: u64, offset: u64) -> (sum: u64)
    ensures
        sum == plus(address, offset),
{
    address.wrapping_add(offset)
}

pub fn read_u64<M: Memory>(memory: &M, at: u64) -> (value: Option<u64>)
    ensures
        value == u64_at(memory, at),
{
    let mut buf: Vec<u8> = vec![0u8; 8];
    if memory.read(at, buf.as_mut_slice()) {
        Some(u64_from_le_bytes(buf.as_slice()))
    } else {
        None
    }
}

pub fn read_u32<M: Memory>(memory: &M, at: u64) -> (value: Option<u32>)
    ensures
        value == u32_at(memory, at),
{
    let mut buf: Vec<u8> = vec![0u8; 4];
    if memory.read(at, buf.as_mut_slice()) {
        Some(u32_from_le_bytes(buf.as_slice()))
    } else {
        None
    }
}

pub fn read_i32<M: Memory>(memory: &M, at: u64) -> (value: Option<i32>)
    ensures
        value == i32_at(memory, at),
{
    let mut buf: Vec<u8> = vec![0u8; 4];
    if memory.read(at, buf.as_mut_slice()) {
        Some(to_signed32(u32_from_le_bytes(buf.as_slice())))
    } else {
        None
    }
}

pub fn read_i64<M: Memory>(memory: &M, at: u64) -> (value: Option<i64>)
    ensures
        value == i64_at(memory, at),
{
    let mut buf: Vec<u8> = vec![0u8; 8];
    if memory.read(at, buf.as_mut_slice()) {
        Some(to_signed64(u64_from_le_bytes(buf.as_slice())))
    } else {
        None
    }
}

pub fn read_u8<M: Memory>(memory: &M, at: u64) -> (value: Option<u8>)
    ensures
        value == u8_at(memory, at),
{
    let mut buf: Vec<u8> = vec![0u8; 1];
    if memory.read(at, buf.as_mut_slice()) {
        Some(buf[0])
    } else {
        None
    }
}

/// The reference held at `at`, if it can be read and is not null.
pub fn read_pointer_raw<M: Memory>(memory: &M, at: u64) -> (value: Option<u64>)
    ensures
        value == pointer_at(memory, at),
{
    match read_u64(memory, at) {
        Some(word) => if word == 0 {
            None
        } else {
            Some(word)
        },
        None => None,
    }
}

/// The reference in the field `offset` of the object at `base`.
pub fn read_pointer<M: Memory>(memory: &M, base: u64, offset: u32) -> (value: Option<u64>)
    ensures
        value == field_pointer(memory, base, offset),
{
    read_pointer_raw(memory, offset_by(base, offset as u64))
}

/// The word in bytes `[8 * i, 8 * i + 8)` of `bytes`.
pub open spec fn word_of(bytes: Seq<u8>, i: int) -> u64 {
    spec_u64_from_le_bytes(bytes.subrange(8 * i, 8 * i + 8))
}

/// The `i`th little-endian word of `bytes`.
pub fn word_in(bytes: &[u8], i: usize) -> (word: u64)
    requires
        8 * i + 8 <= bytes@.len(),
    ensures
        word == word_of(bytes@, i as int),
{
    let len: usize = bytes.len();
    u64_from_le_bytes(slice_subrange(bytes, 8 * i, 8 * i + 8))
}

/// Whether two runs of bytes are the same.
pub fn same_bytes(a: &[u8], b: &[u8]) -> (equal: bool)
    ensures
        equal == (a@ == b@),
{
    if a.len() != b.len() {
        return false;
    }
    let mut i: usize = 0;
    while i < a.len()
        invariant
            i <= a@.len(),
            a@.len() == b@.len(),
            forall|j: int| 0 <= j < i ==> a@[j] == b@[j],
        decreases a@.len() - i,
    {
        if a[i] != b[i] {
            return false;
        }
        i = i + 1;
    }
    assert(a@ =~= b@);
    true
}

/// An address space with nothing mapped. Every read fails.
pub struct EmptyMemory;

impl Memory for EmptyMemory {
    open spec fn contents(&self, address: u64, len: nat) -> Option<Seq<u8>> {
        None
    }

    fn read(&self, address: u64, buf: &mut [u8]) -> (ok: bool)
        ensures
            !ok,
            final(buf)@ == old(buf)@,
    {
        false
    }
}

/// An address space assembled from explicitly placed blocks.
///
/// Enough to hand-build small cases without a snapshot or a fixture. Blocks may
/// not overlap, and a read spanning a gap fails as a whole.
pub struct SparseMemory {
    /// Each block's address and bytes, in address order.
    blocks: Vec<(u64, Vec<u8>)>,
}

/// The last of `blocks` that starts at or below `address`, or -1.
pub open spec fn last_at(blocks: Seq<(u64, Seq<u8>)>, address: u64) -> int
    decreases blocks.len(),
{
    if blocks.len() == 0 {
        -1
    } else if blocks.last().0 <= address {
        blocks.len() - 1
    } else {
        last_at(blocks.drop_last(), address)
    }
}

/// The `len` bytes at `address`, where one block holds all of them.
pub open spec fn in_one_block(blocks: Seq<(u64, Seq<u8>)>, address: u64, len: nat) -> Option<
    Seq<u8>,
> {
    let i = last_at(blocks, address);
    if i < 0 || address + len > blocks[i].0 + blocks[i].1.len() {
        None
    } else {
        Some(blocks[i].1.subrange(address - blocks[i].0, address - blocks[i].0 + len))
    }
}

/// Blocks in address order, none reaching into the next.
pub open spec fn disjoint(blocks: Seq<(u64, Seq<u8>)>) -> bool {
    &&& forall|i: int|
        0 <= i < blocks.len() ==> #[trigger] blocks[i].0 + blocks[i].1.len() <= u64::MAX
    &&& forall|i: int, j: int|
        0 <= i < j < blocks.len() ==> #[trigger] blocks[i].0 < #[trigger] blocks[j].0
            && blocks[i].0 + blocks[i].1.len() <= blocks[j].0
}

/// Whether a block of `len` bytes at `address` stays clear of every block that
/// starts below its end.
pub open spec fn clear_of(blocks: Seq<(u64, Seq<u8>)>, address: u64, len: nat) -> bool {
    forall|i: int|
        0 <= i < blocks.len() && #[trigger] blocks[i].0 < address + len ==> blocks[i].0
            + blocks[i].1.len() <= address
}

/// `blocks` with one more placed at `address`: an empty one already there gives
/// way, and an empty one gives way to whatever is there.
pub open spec fn placed(blocks: Seq<(u64, Seq<u8>)>, address: u64, bytes: Seq<u8>) -> Seq<
    (u64, Seq<u8>),
> {
    let i = last_at(blocks, address);
    if i >= 0 && blocks[i].0 == address {
        if bytes.len() == 0 {
            blocks
        } else {
            blocks.update(i, (address, bytes))
        }
    } else {
        blocks.insert(i + 1, (address, bytes))
    }
}

proof fn lemma_last_at(blocks: Seq<(u64, Seq<u8>)>, address: u64)
    requires
        disjoint(blocks),
    ensures
        -1 <= last_at(blocks, address) < blocks.len(),
        last_at(blocks, address) >= 0 ==> blocks[last_at(blocks, address)].0 <= address,
        forall|j: int|
            last_at(blocks, address) < j < blocks.len() ==> #[trigger] blocks[j].0 > address,
    decreases blocks.len(),
{
    if blocks.len() > 0 && blocks.last().0 > address {
        assert(disjoint(blocks.drop_last()));
        lemma_last_at(blocks.drop_last(), address);
        assert forall|j: int| last_at(blocks, address) < j < blocks.len() implies
            #[trigger] blocks[j].0 > address by {
            if j < blocks.len() - 1 {
                assert(blocks[j] == blocks.drop_last()[j]);
            }
        }
    }
}

proof fn lemma_last_at_is(blocks: Seq<(u64, Seq<u8>)>, address: u64, i: int)
    requires
        disjoint(blocks),
        -1 <= i < blocks.len(),
        i >= 0 ==> blocks[i].0 <= address,
        forall|j: int| i < j < blocks.len() ==> #[trigger] blocks[j].0 > address,
    ensures
        last_at(blocks, address) == i,
{
    lemma_last_at(blocks, address);
    let k = last_at(blocks, address);
    if k > i {
        assert(blocks[k].0 > address);
    }
    if i > k {
        assert(blocks[i].0 > address);
    }
}

/// What was placed reads back, and everything else reads as it did: nothing that
/// could be read is overwritten, whatever is put.
pub proof fn placing_keeps_the_rest(
    blocks: Seq<(u64, Seq<u8>)>,
    address: u64,
    bytes: Seq<u8>,
    at: u64,
    n: nat,
)
    requires
        disjoint(blocks),
        address + bytes.len() <= u64::MAX,
        clear_of(blocks, address, bytes.len()),
        n > 0,
    ensures
        disjoint(placed(blocks, address, bytes)),
        in_one_block(placed(blocks, address, bytes), at, n) == if address <= at && at + n <= address
            + bytes.len() {
            Some(bytes.subrange(at - address, at - address + n))
        } else {
            in_one_block(blocks, at, n)
        },
{
    lemma_placed(blocks, address, bytes);
    let after = placed(blocks, address, bytes);
    let p = last_at(blocks, address);
    lemma_last_at(blocks, address);
    lemma_last_at(blocks, at);
    lemma_last_at(after, at);
    let q = last_at(blocks, at);
    if p >= 0 && blocks[p].0 == address && bytes.len() > 0 {
        // An empty block gave way; it held nothing that could be read.
        assert(blocks[p].1.len() == 0);
        assert forall|j: int| q < j < after.len() implies #[trigger] after[j].0 > at by {
            assert(blocks[j].0 > at);
        }
        if q >= 0 {
            assert(after[q].0 <= at);
        }
        lemma_last_at_is(after, at, q);
        if q != p && q >= 0 {
            assert(after[q] == blocks[q]);
            if address <= at {
                assert(p <= q) by {
                    if q < p {
                        assert(blocks[p].0 > at);
                    }
                }
                assert(blocks[q].0 >= address + bytes.len()) by {
                    assert(blocks[p].0 < blocks[q].0);
                    if blocks[q].0 < address + bytes.len() {
                        assert(blocks[q].0 + blocks[q].1.len() <= address);
                    }
                }
            }
        }
    } else if p < 0 || blocks[p].0 != address {
        assert forall|j: int| 0 <= j < after.len() implies #[trigger] after[j] == if j <= p {
            blocks[j]
        } else if j == p + 1 {
            (address, bytes)
        } else {
            blocks[j - 1]
        } by {}
        assert forall|j: int| p < j < blocks.len() implies #[trigger] blocks[j].0 >= address
            + bytes.len() by {
            if blocks[j].0 < address + bytes.len() {
                assert(blocks[j].0 + blocks[j].1.len() <= address);
                assert(blocks[j].0 > address);
            }
        }
        let want = if address > at {
            q
        } else if q <= p {
            p + 1
        } else {
            q + 1
        };
        if address > at {
            assert(q <= p) by {
                if q > p {
                    assert(blocks[q].0 > address);
                }
            }
        } else {
            assert(q >= p) by {
                if q < p {
                    assert(blocks[p].0 > at);
                }
            }
        }
        assert forall|j: int| want < j < after.len() implies #[trigger] after[j].0 > at by {
            if j == p + 1 {
                assert(after[j].0 == address);
            } else if j <= p {
                assert(blocks[j].0 > at);
            } else {
                assert(blocks[j - 1].0 > at);
            }
        }
        if want >= 0 {
            assert(after[want].0 <= at);
        }
        lemma_last_at_is(after, at, want);
        if want == p + 1 && at + n > address + bytes.len() {
            // Past the new block's end, and so past the end of the one below it.
            if q >= 0 {
                assert(blocks[q].0 < address + bytes.len());
                assert(blocks[q].0 + blocks[q].1.len() <= address);
            }
        }
        if want == q && q >= 0 && address > at {
            assert(after[q] == blocks[q]);
        }
    }
}

proof fn lemma_placed(blocks: Seq<(u64, Seq<u8>)>, address: u64, bytes: Seq<u8>)
    requires
        disjoint(blocks),
        address + bytes.len() <= u64::MAX,
        clear_of(blocks, address, bytes.len()),
    ensures
        disjoint(placed(blocks, address, bytes)),
        0 <= last_at(blocks, address) + 1 <= blocks.len(),
{
    lemma_last_at(blocks, address);
    let p = last_at(blocks, address);
    let after = placed(blocks, address, bytes);
    assert forall|j: int| p < j < blocks.len() implies #[trigger] blocks[j].0 >= address
        + bytes.len() && blocks[j].0 > address by {
        assert(blocks[j].0 > address);
        if blocks[j].0 < address + bytes.len() {
            assert(blocks[j].0 + blocks[j].1.len() <= address);
        }
    }
    assert forall|j: int| 0 <= j <= p && blocks[j].0 < address implies #[trigger] blocks[j].0
        + blocks[j].1.len() <= address by {
        if bytes.len() == 0 && j < p {
            assert(blocks[j].0 + blocks[j].1.len() <= blocks[p].0);
        } else if bytes.len() == 0 {
            assert(blocks[j].0 < address + bytes.len());
        } else {
            assert(blocks[j].0 < address + bytes.len());
        }
    }
    if p >= 0 && blocks[p].0 == address {
        assert forall|i: int, j: int| 0 <= i < j < after.len() implies #[trigger] after[i].0
            < #[trigger] after[j].0 && after[i].0 + after[i].1.len() <= after[j].0 by {
            assert(blocks[i].0 < blocks[j].0);
        }
        assert forall|i: int| 0 <= i < after.len() implies #[trigger] after[i].0
            + after[i].1.len() <= u64::MAX by {
            assert(blocks[i].0 + blocks[i].1.len() <= u64::MAX);
        }
    } else if p < 0 || blocks[p].0 != address {
        assert forall|j: int| 0 <= j < after.len() implies #[trigger] after[j] == if j <= p {
            blocks[j]
        } else if j == p + 1 {
            (address, bytes)
        } else {
            blocks[j - 1]
        } by {}
        assert forall|j: int| 0 <= j <= p implies #[trigger] blocks[j].0 < address by {
            if j < p {
                assert(blocks[j].0 < blocks[p].0);
            }
        }
        assert forall|i: int, j: int| 0 <= i < j < after.len() implies #[trigger] after[i].0
            < #[trigger] after[j].0 && after[i].0 + after[i].1.len() <= after[j].0 by {
            let bi = if i <= p {
                i
            } else {
                i - 1
            };
            let bj = if j <= p {
                j
            } else {
                j - 1
            };
            if i != p + 1 && j != p + 1 {
                assert(blocks[bi].0 < blocks[bj].0);
            } else if i == p + 1 {
                assert(blocks[bj].0 >= address + bytes.len());
            } else {
                assert(blocks[i].0 < address);
            }
        }
        assert forall|i: int| 0 <= i < after.len() implies #[trigger] after[i].0
            + after[i].1.len() <= u64::MAX by {
            if i != p + 1 {
                let bi = if i <= p {
                    i
                } else {
                    i - 1
                };
                assert(blocks[bi].0 + blocks[bi].1.len() <= u64::MAX);
            }
        }
    }
}

/// `blocks` with `bytes` over what one of them holds at `address`.
pub open spec fn poked(blocks: Seq<(u64, Seq<u8>)>, address: u64, bytes: Seq<u8>) -> Seq<
    (u64, Seq<u8>),
> {
    let i = last_at(blocks, address);
    let (start, held) = blocks[i];
    let at = address - start;
    blocks.update(
        i,
        (
            start,
            Seq::new(
                held.len(),
                |k: int|
                    if at <= k < at + bytes.len() {
                        bytes[k - at]
                    } else {
                        held[k]
                    },
            ),
        ),
    )
}

/// What was poked reads back, and what does not overlap it reads as it did.
pub proof fn poking_keeps_the_rest(
    blocks: Seq<(u64, Seq<u8>)>,
    address: u64,
    bytes: Seq<u8>,
    at: u64,
    n: nat,
)
    requires
        disjoint(blocks),
        in_one_block(blocks, address, bytes.len()) is Some,
    ensures
        disjoint(poked(blocks, address, bytes)),
        in_one_block(poked(blocks, address, bytes), address, bytes.len()) == Some(bytes),
        at + n <= address || address + bytes.len() <= at ==> in_one_block(
            poked(blocks, address, bytes),
            at,
            n,
        ) == in_one_block(blocks, at, n),
{
    let after = poked(blocks, address, bytes);
    let p = last_at(blocks, address);
    lemma_last_at(blocks, address);
    lemma_last_at(blocks, at);
    assert forall|i: int| 0 <= i < after.len() implies (#[trigger] after[i]).0 == blocks[i].0
        && after[i].1.len() == blocks[i].1.len() by {}
    assert forall|i: int, j: int| 0 <= i < j < after.len() implies #[trigger] after[i].0
        < #[trigger] after[j].0 && after[i].0 + after[i].1.len() <= after[j].0 by {
        assert(blocks[i].0 < blocks[j].0);
    }
    assert forall|i: int| 0 <= i < after.len() implies #[trigger] after[i].0 + after[i].1.len()
        <= u64::MAX by {
        assert(blocks[i].0 + blocks[i].1.len() <= u64::MAX);
    }
    let q = last_at(blocks, at);
    assert forall|j: int| q < j < after.len() implies #[trigger] after[j].0 > at by {
        assert(blocks[j].0 > at);
    }
    assert forall|j: int| p < j < after.len() implies #[trigger] after[j].0 > address by {
        assert(blocks[j].0 > address);
    }
    if q >= 0 {
        assert(after[q].0 <= at);
    }
    lemma_last_at_is(after, at, q);
    lemma_last_at_is(after, address, p);
    let start = blocks[p].0;
    assert(after[p].1.subrange(address - start, address - start + bytes.len()) =~= bytes);
    if q >= 0 && at + n <= blocks[q].0 + blocks[q].1.len() && (at + n <= address || address
        + bytes.len() <= at) {
        let from = at - blocks[q].0;
        assert(after[q].1.subrange(from, from + n) =~= blocks[q].1.subrange(from, from + n));
    }
}

spec fn viewed(blocks: Seq<(u64, Vec<u8>)>) -> Seq<(u64, Seq<u8>)> {
    blocks.map_values(|block: (u64, Vec<u8>)| (block.0, block.1@))
}

impl View for SparseMemory {
    type V = Seq<(u64, Seq<u8>)>;

    closed spec fn view(&self) -> Seq<(u64, Seq<u8>)> {
        viewed(self.blocks@)
    }
}

impl SparseMemory {
    /// The blocks are in order and clear of each other.
    #[verifier::type_invariant]
    spec fn ordered(&self) -> bool {
        disjoint(self@)
    }

    pub fn new() -> (memory: Self)
        ensures
            memory@ == Seq::<(u64, Seq<u8>)>::empty(),
    {
        let blocks: Vec<(u64, Vec<u8>)> = Vec::new();
        let memory = SparseMemory { blocks };
        assert(memory@ =~= Seq::<(u64, Seq<u8>)>::empty());
        memory
    }

    /// The last block that starts at or below `address`.
    fn find(&self, address: u64) -> (found: Option<usize>)
        ensures
            match found {
                Some(i) => i == last_at(self@, address) && i < self.blocks@.len(),
                None => last_at(self@, address) == -1,
            },
    {
        let mut n: usize = self.blocks.len();
        assert(self@.take(n as int) =~= self@);
        while n > 0
            invariant
                n <= self.blocks@.len(),
                last_at(self@, address) == last_at(self@.take(n as int), address),
            decreases n,
        {
            assert(self@.take(n as int).last() == self@[n - 1]);
            assert(self@.take(n as int).drop_last() =~= self@.take(n - 1));
            if self.blocks[n - 1].0 <= address {
                return Some(n - 1);
            }
            n = n - 1;
        }
        None
    }

    /// Places `bytes` at `address`, where no block already placed is in the way:
    /// silently overwriting one would make a fixture's meaning depend on the
    /// order things were put in.
    pub fn put(&mut self, address: u64, bytes: Vec<u8>) -> (memory: &mut Self)
        requires
            address + bytes@.len() <= u64::MAX,
            clear_of(old(self)@, address, bytes@.len()),
        ensures
            memory@ == placed(old(self)@, address, bytes@),
            *final(self) == *final(memory),
    {
        proof {
            use_type_invariant(&*self);
            lemma_placed(self@, address, bytes@);
        }
        let ghost before = self@;
        let ghost block: (u64, Seq<u8>) = (address, bytes@);
        let found = self.find(address);
        let mut memory = SparseMemory::new();
        core::mem::swap(self, &mut memory);
        let mut blocks: Vec<(u64, Vec<u8>)> = memory.blocks;
        let count: usize = blocks.len();
        match found {
            Some(i) => {
                if blocks[i].0 == address {
                    if bytes.len() > 0 {
                        blocks[i] = (address, bytes);
                        assert(viewed(blocks@) =~= before.update(i as int, block));
                    }
                } else {
                    let after: usize = i + 1;
                    blocks.insert(after, (address, bytes));
                    assert(viewed(blocks@) =~= before.insert(i + 1, block));
                }
            },
            None => {
                blocks.insert(0, (address, bytes));
                assert(viewed(blocks@) =~= before.insert(0, block));
            },
        }
        *self = SparseMemory { blocks };
        self
    }

    /// Writes `bytes` over what one block holds at `address`: the world changes,
    /// but its map does not.
    pub fn poke(&mut self, address: u64, bytes: &[u8])
        requires
            in_one_block(old(self)@, address, bytes@.len()) is Some,
        ensures
            final(self)@ == poked(old(self)@, address, bytes@),
    {
        proof {
            use_type_invariant(&*self);
            lemma_last_at(self@, address);
            poking_keeps_the_rest(self@, address, bytes@, 0, 0);
        }
        let ghost before = self@;
        let found = self.find(address);
        let mut memory = SparseMemory::new();
        core::mem::swap(self, &mut memory);
        let mut blocks: Vec<(u64, Vec<u8>)> = memory.blocks;
        match found {
            Some(i) => {
                assert(before[i as int] == (blocks@[i as int].0, blocks@[i as int].1@));
                let (start, mut block) = blocks.remove(i);
                let ghost held = block@;
                let count: usize = block.len();
                let at: usize = (address - start) as usize;
                let mut k: usize = 0;
                while k < bytes.len()
                    invariant
                        k <= bytes@.len(),
                        block@.len() == held.len(),
                        at + bytes@.len() <= held.len(),
                        held.len() == count,
                        forall|j: int| 0 <= j < k ==> block@[at + j] == bytes@[j],
                        forall|j: int|
                            0 <= j < held.len() && !(at <= j < at + k) ==> block@[j] == held[j],
                    decreases bytes@.len() - k,
                {
                    block[at + k] = bytes[k];
                    k = k + 1;
                }
                proof {
                    let new = poked(before, address, bytes@)[i as int];
                    assert(block@ =~= new.1);
                }
                blocks.insert(i, (start, block));
                assert(viewed(blocks@) =~= poked(before, address, bytes@));
            },
            None => {},
        }
        *self = SparseMemory { blocks };
    }

    /// Places a little-endian pointer-sized value, the common case by far.
    pub fn put_u64(&mut self, address: u64, value: u64) -> (memory: &mut Self)
        requires
            address + 8 <= u64::MAX,
            clear_of(old(self)@, address, 8),
        ensures
            memory@ == placed(old(self)@, address, spec_u64_to_le_bytes(value)),
            *final(self) == *final(memory),
    {
        self.put(address, u64_to_le_bytes(value))
    }
}

impl Memory for SparseMemory {
    open spec fn contents(&self, address: u64, len: nat) -> Option<Seq<u8>> {
        in_one_block(self@, address, len)
    }

    /// A read that fails leaves `buf` as it was.
    fn read(&self, address: u64, buf: &mut [u8]) -> (ok: bool)
        ensures
            !ok ==> final(buf)@ == old(buf)@,
    {
        proof {
            use_type_invariant(self);
            lemma_last_at(self@, address);
        }
        let found = self.find(address);
        let i = match found {
            Some(i) => i,
            None => {
                return false;
            },
        };
        let start: u64 = self.blocks[i].0;
        let block: &Vec<u8> = &self.blocks[i].1;
        assert(self@[i as int] == (start, block@));
        let len: usize = buf.len();
        let held: usize = block.len();
        if address - start > held as u64 {
            return false;
        }
        let offset: usize = (address - start) as usize;
        if held - offset < len {
            return false;
        }
        let ghost wanted = block@.subrange(offset as int, offset + len);
        let mut k: usize = 0;
        while k < len
            invariant
                k <= len,
                buf@.len() == len,
                held == block@.len(),
                offset + len <= held,
                forall|j: int| 0 <= j < k ==> buf@[j] == block@[offset + j],
            decreases len - k,
        {
            buf[k] = block[offset + k];
            k = k + 1;
        }
        assert(buf@ =~= wanted);
        true
    }
}

/// Memory made of blocks reads the same in parts as in one.
pub proof fn blocks_are_coherent(memory: SparseMemory)
    requires
        disjoint(memory@),
    ensures
        is_coherent(&memory),
{
    assert forall|address: u64, len: nat, at: u64, n: nat|
        n > 0 && address <= at && at + n <= address + len && (#[trigger] memory.contents(
            address,
            len,
        )) is Some implies #[trigger] memory.contents(at, n) == Some(
        memory.contents(address, len)->0.subrange(at - address, at - address + n),
    ) by {
        lemma_last_at(memory@, address);
        let i = last_at(memory@, address);
        let (start, block) = memory@[i];
        assert forall|j: int| i < j < memory@.len() implies #[trigger] memory@[j].0 > at by {
            assert(memory@[i].0 < memory@[j].0);
        }
        lemma_last_at_is(memory@, at, i);
        assert(memory.contents(address, len)->0.subrange(at - address, at - address + n)
            =~= block.subrange(at - start, at - start + n));
    }
}

/// A loaded module, as a runtime reports it.
pub struct ModuleInfo {
    pub name: String,
    pub address: u64,
    pub size: u64,
    pub path: Option<String>,
}

/// A mapped range, as a runtime reports it. See [`flags`] for what the bits
/// mean.
#[derive(Clone, Copy, PartialEq, Eq, Structural)]
pub struct MemoryRange {
    pub address: u64,
    pub size: u64,
    pub flags: u64,
}

impl MemoryRange {
    /// Whether `address` lies in the range.
    pub open spec fn spans(self, address: u64) -> bool {
        self.address <= address && address - self.address < self.size
    }

    /// Whether the `len` bytes at `address` all lie in the range.
    pub open spec fn holds(self, address: u64, len: nat) -> bool {
        self.address <= address && address + len <= self.address + self.size
    }
}

/// A process the fake runtime will let the splitter attach to.
pub struct FakeProcess<M: Memory> {
    pub pid: u64,
    /// The name the runtime reports, which is what attaching matches on. On
    /// Linux this is `/proc/<pid>/comm`, capped at 15 characters.
    pub name: String,
    pub path: Option<String>,
    pub modules: Vec<ModuleInfo>,
    pub ranges: Vec<MemoryRange>,
    pub memory: M,
    /// What the Mono runtime in the process says of its classes, once it is up.
    pub runtime: Option<Module>,
    /// Set false to model a process that has exited but is still attached to.
    pub open: bool,
}

impl FakeProcess<EmptyMemory> {
    /// An open process with nothing mapped.
    pub fn new(pid: u64, name: &str) -> (process: Self)
        ensures
            process.pid == pid,
            process.name@ == name@,
            process.path is None,
            process.modules@.len() == 0,
            process.ranges@.len() == 0,
            process.runtime is None,
            process.open,
    {
        FakeProcess {
            pid,
            name: owned(name),
            path: None,
            modules: Vec::new(),
            ranges: Vec::new(),
            memory: EmptyMemory,
            runtime: None,
            open: true,
        }
    }
}

impl<M: Memory> FakeProcess<M> {
    /// The same process, with `memory` behind its addresses.
    pub fn with_memory<N: Memory>(self, memory: N) -> (process: FakeProcess<N>)
        ensures
            process.memory == memory,
            process.pid == self.pid,
            process.name == self.name,
            process.path == self.path,
            process.modules == self.modules,
            process.ranges == self.ranges,
            process.runtime == self.runtime,
            process.open == self.open,
    {
        FakeProcess {
            pid: self.pid,
            name: self.name,
            path: self.path,
            modules: self.modules,
            ranges: self.ranges,
            memory,
            runtime: self.runtime,
            open: self.open,
        }
    }

    /// The same process, with a Mono runtime up in it.
    pub fn with_runtime(self, runtime: Module) -> (process: Self)
        ensures
            process == (FakeProcess { runtime: Some(runtime), ..self }),
    {
        let mut process = self;
        process.runtime = Some(runtime);
        process
    }

    /// The same process, with one more module loaded.
    pub fn with_module(self, name: &str, address: u64, size: u64) -> (process: Self)
        ensures
            process.modules@.len() == self.modules@.len() + 1,
            process.modules@.drop_last() == self.modules@,
            process.modules@.last().name@ == name@,
            process.modules@.last().address == address,
            process.modules@.last().size == size,
            process.modules@.last().path is None,
            process == (FakeProcess { modules: process.modules, ..self }),
    {
        let mut process = self;
        process.modules.push(ModuleInfo { name: owned(name), address, size, path: None });
        assert(process.modules@.drop_last() =~= self.modules@);
        process
    }

    /// The same process, with one more range mapped.
    pub fn with_range(self, address: u64, size: u64, flags: u64) -> (process: Self)
        ensures
            process.ranges@ == self.ranges@.push(MemoryRange { address, size, flags }),
            process == (FakeProcess { ranges: process.ranges, ..self }),
    {
        let mut process = self;
        process.ranges.push(MemoryRange { address, size, flags });
        process
    }
}

} // verus!
