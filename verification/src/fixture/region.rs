//! A block of memory being filled in, addressed as the process will see it.
use vstd::bytes::{
    lemma_auto_spec_u32_to_from_le_bytes, lemma_auto_spec_u64_to_from_le_bytes,
    spec_u32_from_le_bytes, spec_u32_to_le_bytes, spec_u64_from_le_bytes, spec_u64_to_le_bytes,
    u32_to_le_bytes, u64_to_le_bytes,
};
use vstd::prelude::*;

verus! {

/// How far a region may reach. Every region of a synthetic world has this much
/// of the address space to itself.
pub const SPAN: u64 = 0x2000_0000;

/// `n` rounded up to a multiple of eight.
pub open spec fn aligned(n: int) -> int {
    (n + 7) / 8 * 8
}

/// `bytes` with zeros behind them up to a multiple of eight, and `len` more.
pub open spec fn grown(bytes: Seq<u8>, len: int) -> Seq<u8> {
    Seq::new(
        (aligned(bytes.len() as int) + len) as nat,
        |i: int|
            if i < bytes.len() {
                bytes[i]
            } else {
                0u8
            },
    )
}

/// `bytes` with `new` over what was at `at`.
pub open spec fn overwritten(bytes: Seq<u8>, at: int, new: Seq<u8>) -> Seq<u8> {
    Seq::new(
        bytes.len(),
        |i: int|
            if at <= i < at + new.len() {
                new[i - at]
            } else {
                bytes[i]
            },
    )
}

/// The little-endian word at `at`.
pub open spec fn word(bytes: Seq<u8>, at: int) -> u64 {
    spec_u64_from_le_bytes(bytes.subrange(at, at + 8))
}

/// The little-endian 32-bit word at `at`.
pub open spec fn half(bytes: Seq<u8>, at: int) -> u32 {
    spec_u32_from_le_bytes(bytes.subrange(at, at + 4))
}

/// Whether `text` stands at `at`, with a zero behind it.
pub open spec fn text_at(bytes: Seq<u8>, at: int, text: Seq<u8>) -> bool {
    &&& 0 <= at
    &&& at + text.len() < bytes.len()
    &&& bytes.subrange(at, at + text.len()) == text
    &&& bytes[at + text.len()] == 0
}

/// Nothing in front of `end` differs.
pub open spec fn same_before(a: Seq<u8>, b: Seq<u8>, end: int) -> bool {
    &&& end <= a.len()
    &&& end <= b.len()
    &&& a.take(end) == b.take(end)
}

/// What was written is there, and everything that does not overlap it is as it
/// was.
pub proof fn lemma_overwritten(bytes: Seq<u8>, at: int, new: Seq<u8>)
    requires
        0 <= at,
        at + new.len() <= bytes.len(),
    ensures
        overwritten(bytes, at, new).subrange(at, at + new.len()) == new,
        forall|o: int|
            0 <= o && o + 8 <= bytes.len() && (o + 8 <= at || at + new.len() <= o)
                ==> #[trigger] word(overwritten(bytes, at, new), o) == word(bytes, o),
        forall|o: int|
            0 <= o && o + 4 <= bytes.len() && (o + 4 <= at || at + new.len() <= o)
                ==> #[trigger] half(overwritten(bytes, at, new), o) == half(bytes, o),
        forall|o: int, text: Seq<u8>|
            (o + text.len() < at || at + new.len() <= o) && text_at(bytes, o, text)
                ==> #[trigger] text_at(overwritten(bytes, at, new), o, text),
        same_before(overwritten(bytes, at, new), bytes, at),
{
    let after = overwritten(bytes, at, new);
    assert(after.subrange(at, at + new.len()) =~= new);
    assert(after.take(at) =~= bytes.take(at));
    assert forall|o: int|
        0 <= o && o + 8 <= bytes.len() && (o + 8 <= at || at + new.len() <= o) implies
        #[trigger] word(after, o) == word(bytes, o) by {
        assert(after.subrange(o, o + 8) =~= bytes.subrange(o, o + 8));
    }
    assert forall|o: int|
        0 <= o && o + 4 <= bytes.len() && (o + 4 <= at || at + new.len() <= o) implies
        #[trigger] half(after, o) == half(bytes, o) by {
        assert(after.subrange(o, o + 4) =~= bytes.subrange(o, o + 4));
    }
    assert forall|o: int, text: Seq<u8>|
        (o + text.len() < at || at + new.len() <= o) && text_at(bytes, o, text) implies
        #[trigger] text_at(after, o, text) by {
        assert(after.subrange(o, o + text.len()) =~= bytes.subrange(o, o + text.len()));
    }
}

/// What was there before a region grew is still there, and what it grew by is
/// zero.
pub proof fn lemma_grown(bytes: Seq<u8>, len: int)
    requires
        0 <= len,
    ensures
        bytes.len() <= aligned(bytes.len() as int) < bytes.len() + 8,
        aligned(bytes.len() as int) % 8 == 0,
        grown(bytes, len).len() == aligned(bytes.len() as int) + len,
        same_before(grown(bytes, len), bytes, bytes.len() as int),
        forall|i: int|
            bytes.len() <= i < aligned(bytes.len() as int) + len ==> #[trigger] grown(bytes, len)[i]
                == 0,
{
    assert(grown(bytes, len).take(bytes.len() as int) =~= bytes.take(bytes.len() as int));
}

/// One `Vec` per region rather than one per structure: a read that spans two
/// blocks fails, and Mono's structures are adjacent to each other by
/// construction.
pub struct Region {
    base: u64,
    bytes: Vec<u8>,
}

impl View for Region {
    type V = Seq<u8>;

    closed spec fn view(&self) -> Seq<u8> {
        self.bytes@
    }
}

impl Region {
    #[verifier::type_invariant]
    spec fn in_its_span(&self) -> bool {
        self.base <= 0x8000_0000 && self.bytes@.len() <= SPAN
    }

    /// Where the region begins.
    pub closed spec fn base(self) -> u64 {
        self.base
    }

    /// Where the next thing placed in the region will be.
    pub open spec fn next(self) -> u64 {
        (self.base() + aligned(self@.len() as int)) as u64
    }

    pub fn new(base: u64) -> (region: Self)
        requires
            base <= 0x8000_0000,
        ensures
            region.base() == base,
            region@ == Seq::<u8>::empty(),
    {
        Region { base, bytes: Vec::new() }
    }

    /// Reserves `len` zeroed bytes, 8-aligned, and returns their address.
    pub fn reserve(&mut self, len: u64) -> (address: u64)
        requires
            aligned(old(self)@.len() as int) + len <= SPAN,
        ensures
            address == old(self).next(),
            address == old(self).base() + aligned(old(self)@.len() as int),
            final(self).base() == old(self).base(),
            final(self)@ == grown(old(self)@, len as int),
            final(self)@.len() == aligned(old(self)@.len() as int) + len,
    {
        proof {
            use_type_invariant(&*self);
            lemma_grown(self@, len as int);
        }
        let ghost before = self@;
        let base: u64 = self.base;
        let mut region = Region { base, bytes: Vec::new() };
        core::mem::swap(self, &mut region);
        let mut bytes = region.bytes;
        let start: u64 = (bytes.len() as u64 + 7) / 8 * 8;
        let end: usize = (start + len) as usize;
        while bytes.len() < end
            invariant
                before.len() <= bytes@.len() <= end,
                forall|i: int| 0 <= i < before.len() ==> bytes@[i] == before[i],
                forall|i: int| before.len() <= i < bytes@.len() ==> bytes@[i] == 0,
            decreases end - bytes@.len(),
        {
            bytes.push(0);
        }
        assert(bytes@ =~= grown(before, len as int));
        *self = Region { base, bytes };
        base + start
    }

    /// Writes `new` over what is at `address`.
    pub fn write(&mut self, address: u64, new: &[u8])
        requires
            old(self).base() <= address,
            address - old(self).base() + new@.len() <= old(self)@.len(),
        ensures
            final(self).base() == old(self).base(),
            final(self)@ == overwritten(old(self)@, address - old(self).base(), new@),
    {
        proof {
            use_type_invariant(&*self);
        }
        let ghost before = self@;
        let base: u64 = self.base;
        let mut region = Region { base, bytes: Vec::new() };
        core::mem::swap(self, &mut region);
        let mut bytes = region.bytes;
        let start: usize = (address - base) as usize;
        let mut k: usize = 0;
        while k < new.len()
            invariant
                k <= new@.len(),
                start + new@.len() <= bytes@.len(),
                bytes@.len() == before.len(),
                bytes@.len() <= SPAN,
                forall|i: int| 0 <= i < k ==> bytes@[start + i] == new@[i],
                forall|i: int|
                    0 <= i < before.len() && !(start <= i < start + k) ==> bytes@[i] == before[i],
            decreases new@.len() - k,
        {
            bytes[start + k] = new[k];
            k = k + 1;
        }
        assert(bytes@ =~= overwritten(before, start as int, new@));
        *self = Region { base, bytes };
    }

    pub fn write_u32(&mut self, address: u64, value: u32)
        requires
            old(self).base() <= address,
            address - old(self).base() + 4 <= old(self)@.len(),
        ensures
            final(self).base() == old(self).base(),
            final(self)@ == overwritten(
                old(self)@,
                address - old(self).base(),
                spec_u32_to_le_bytes(value),
            ),
    {
        proof {
            lemma_auto_spec_u32_to_from_le_bytes();
        }
        let bytes = u32_to_le_bytes(value);
        self.write(address, bytes.as_slice());
    }

    pub fn write_u64(&mut self, address: u64, value: u64)
        requires
            old(self).base() <= address,
            address - old(self).base() + 8 <= old(self)@.len(),
        ensures
            final(self).base() == old(self).base(),
            final(self)@ == overwritten(
                old(self)@,
                address - old(self).base(),
                spec_u64_to_le_bytes(value),
            ),
    {
        proof {
            lemma_auto_spec_u64_to_from_le_bytes();
        }
        let bytes = u64_to_le_bytes(value);
        self.write(address, bytes.as_slice());
    }

    pub fn len(&self) -> (len: u64)
        ensures
            len == self@.len(),
            len <= SPAN,
            self.base() <= 0x8000_0000,
    {
        proof {
            use_type_invariant(self);
        }
        self.bytes.len() as u64
    }

    /// The bytes, out of the region.
    pub fn into_bytes(self) -> (bytes: Vec<u8>)
        ensures
            bytes@ == self@,
            bytes@.len() <= SPAN,
    {
        proof {
            use_type_invariant(&self);
        }
        self.bytes
    }
}

} // verus!
