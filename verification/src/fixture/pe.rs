//! The two Windows images a synthetic process has loaded.
//!
//! Only the headers that are followed to tell which Unity this is and where the
//! runtime keeps its assemblies: a DOS header, a COFF header, a PE32+ optional
//! header and its data directories. Every relative address is an offset into
//! the one block, which is what a loaded image looks like.
use vstd::bytes::{lemma_auto_spec_u32_to_from_le_bytes, spec_u32_to_le_bytes, u32_to_le_bytes};
use vstd::prelude::*;

use crate::fixture::builder::METADATA_BASE;
use crate::fixture::region::{half, lemma_overwritten, overwritten, text_at};

verus! {

/// Where the images are loaded. They sit within 2 GiB of the metadata, which is
/// not cosmetic: the list of assemblies is found through an instruction whose
/// displacement is a signed 32-bit number.
pub const UNITY_BASE: u64 = 0x1000_0000;
pub const MONO_BASE: u64 = 0x1001_0000;

/// How long an image is.
pub const PE_LEN: u32 = 0x1000;

/// Where the COFF header goes. Anywhere past the DOS header would do; this is
/// what a real linker emits.
pub const COFF: u32 = 0x80;

/// Where the optional header goes, and the data directories in it.
pub const OPTIONAL: u32 = 0x98;
pub const DIRECTORIES: u32 = 0x108;

/// The little-endian 16-bit word at `at`.
pub open spec fn short(bytes: Seq<u8>, at: int) -> int {
    bytes[at] + 0x100 * bytes[at + 1]
}

/// Whether a loaded image begins as a 64-bit Windows one does.
pub open spec fn is_pe(bytes: Seq<u8>) -> bool {
    &&& bytes.len() == PE_LEN
    &&& bytes.subrange(0, 2) == seq![0x4Du8, 0x5Au8]
    &&& half(bytes, 0x3C) == COFF
    &&& bytes.subrange(COFF as int, COFF + 4) == seq![0x50u8, 0x45u8, 0u8, 0u8]
    &&& short(bytes, COFF + 4) == 0x8664
    &&& short(bytes, COFF + 20) == 0xF0
    &&& short(bytes, OPTIONAL as int) == 0x20B
    &&& half(bytes, OPTIONAL + 56) == PE_LEN
}

/// Whether a data directory is at `rva`.
pub open spec fn has_directory(bytes: Seq<u8>, index: int, rva: u32, size: u32) -> bool {
    &&& half(bytes, DIRECTORIES + 8 * index) == rva
    &&& half(bytes, DIRECTORIES + 8 * index + 4) == size
}

/// Whether a resource directory has this one entry, which leads to another
/// directory or to a leaf.
pub open spec fn has_resource(bytes: Seq<u8>, at: int, id: u32, offset: u32, leaf: bool) -> bool {
    &&& short(bytes, at + 12) == 0
    &&& short(bytes, at + 14) == 1
    &&& half(bytes, at + 16) == id
    &&& half(bytes, at + 20) == if leaf {
        offset as int
    } else {
        offset + 0x8000_0000
    }
}

/// Whether an image says it is of a Unity version: three nested resource
/// directories, for the type, the name and the language, then the data entry,
/// which leads to the version.
pub open spec fn has_version(bytes: Seq<u8>, major: int, minor: int) -> bool {
    &&& has_directory(bytes, 2, 0x200, 0x200)
    &&& has_resource(bytes, 0x200, 0x10, 0x40, false)
    &&& has_resource(bytes, 0x240, 1, 0x80, false)
    &&& has_resource(bytes, 0x280, 0x409, 0xC0, true)
    &&& half(bytes, 0x2C0) == 0x300
    &&& half(bytes, 0x328) == 0xFEEF_04BD
    &&& half(bytes, 0x32C) == 0x0001_0000
    &&& half(bytes, 0x330) == 0x1_0000 * major + minor
    &&& half(bytes, 0x334) == 0
}

/// `mono_assembly_foreach`, as an image exports it.
pub open spec fn exported() -> Seq<u8> {
    seq![
        109u8, 111u8, 110u8, 111u8, 95u8, 97u8, 115u8, 115u8, 101u8, 109u8, 98u8, 108u8, 121u8,
        95u8, 102u8, 111u8, 114u8, 101u8, 97u8, 99u8, 104u8,
    ]
}

/// Whether an image exports a function under that name, whose first instruction
/// loads the word at `target`: the export table leads to one name, one ordinal
/// and one function, and the instruction is `mov rcx, [rip + rel32]`.
pub open spec fn leads_to(bytes: Seq<u8>, base: u64, target: u64) -> bool {
    &&& has_directory(bytes, 0, 0x200, 0x40)
    &&& half(bytes, 0x214) == 1
    &&& half(bytes, 0x218) == 1
    &&& half(bytes, 0x21C) == 0x300
    &&& half(bytes, 0x220) == 0x310
    &&& half(bytes, 0x224) == 0x320
    &&& half(bytes, 0x300) == 0x400
    &&& half(bytes, 0x310) == 0x330
    &&& short(bytes, 0x320) == 0
    &&& text_at(bytes, 0x330, exported())
    &&& bytes.subrange(0x400, 0x403) == seq![0x48u8, 0x8Bu8, 0x0Du8]
    &&& base + 0x407 + half(bytes, 0x403) == target
}

/// Everything outside `from` and `to` is as it was.
spec fn same_outside(a: Seq<u8>, b: Seq<u8>, from: int, to: int) -> bool {
    &&& a.len() == b.len()
    &&& forall|i: int| 0 <= i < a.len() && !(from <= i < to) ==> #[trigger] b[i] == a[i]
    &&& forall|o: int|
        0 <= o && o + 4 <= a.len() && (o + 4 <= from || to <= o) ==> #[trigger] half(b, o) == half(
            a,
            o,
        )
}

/// An image being assembled, addressed by relative address.
struct PeImage {
    bytes: Vec<u8>,
}

impl PeImage {
    fn write(&mut self, rva: u32, new: &[u8])
        requires
            rva + new@.len() <= old(self).bytes@.len() <= PE_LEN,
        ensures
            final(self).bytes@ == overwritten(old(self).bytes@, rva as int, new@),
            same_outside(old(self).bytes@, final(self).bytes@, rva as int, rva + new@.len()),
    {
        let ghost before = self.bytes@;
        let mut i: usize = 0;
        while i < new.len()
            invariant
                i <= new@.len(),
                self.bytes@.len() == before.len(),
                rva + new@.len() <= before.len() <= PE_LEN,
                forall|k: int|
                    0 <= k < before.len() ==> #[trigger] self.bytes@[k] == if rva <= k < rva + i {
                        new@[k - rva]
                    } else {
                        before[k]
                    },
            decreases new@.len() - i,
        {
            self.bytes[rva as usize + i] = new[i];
            i = i + 1;
        }
        assert(self.bytes@ =~= overwritten(before, rva as int, new@));
        proof {
            lemma_overwritten(before, rva as int, new@);
        }
    }

    fn u32(&mut self, rva: u32, value: u32)
        requires
            rva + 4 <= old(self).bytes@.len() <= PE_LEN,
        ensures
            half(final(self).bytes@, rva as int) == value,
            same_outside(old(self).bytes@, final(self).bytes@, rva as int, rva + 4),
    {
        proof {
            lemma_auto_spec_u32_to_from_le_bytes();
            lemma_overwritten(self.bytes@, rva as int, spec_u32_to_le_bytes(value));
        }
        let bytes = u32_to_le_bytes(value);
        self.write(rva, bytes.as_slice());
    }

    fn u16(&mut self, rva: u32, value: u16)
        requires
            rva + 2 <= old(self).bytes@.len() <= PE_LEN,
        ensures
            short(final(self).bytes@, rva as int) == value,
            same_outside(old(self).bytes@, final(self).bytes@, rva as int, rva + 2),
    {
        let bytes: [u8; 2] = [(value % 0x100) as u8, (value / 0x100) as u8];
        self.write(rva, bytes.as_slice());
    }

    /// One entry of the optional header's data directory array.
    fn dir(&mut self, index: u32, rva: u32, size: u32)
        requires
            index < 16,
            old(self).bytes@.len() == PE_LEN,
        ensures
            has_directory(final(self).bytes@, index as int, rva, size),
            same_outside(
                old(self).bytes@,
                final(self).bytes@,
                DIRECTORIES + 8 * index,
                DIRECTORIES + 8 * index + 8,
            ),
    {
        self.u32(DIRECTORIES + index * 8, rva);
        self.u32(DIRECTORIES + index * 8 + 4, size);
    }

    /// A resource directory with one entry. The high bit of the entry's offset
    /// says whether it leads to another directory or to a leaf.
    fn resource(&mut self, rva: u32, id: u32, offset: u32, leaf: bool)
        requires
            rva + 24 <= old(self).bytes@.len() <= PE_LEN,
            offset < PE_LEN,
        ensures
            has_resource(final(self).bytes@, rva as int, id, offset, leaf),
            same_outside(old(self).bytes@, final(self).bytes@, rva + 12, rva + 24),
    {
        self.u16(rva + 12, 0);
        self.u16(rva + 14, 1);
        self.u32(rva + 16, id);
        let entry: u32 = if leaf {
            offset
        } else {
            offset + 0x8000_0000
        };
        self.u32(rva + 20, entry);
    }
}

/// An image with its headers and nothing else.
fn pe_headers() -> (pe: PeImage)
    ensures
        is_pe(pe.bytes@),
{
    let mut bytes: Vec<u8> = Vec::new();
    while (bytes.len() as u32) < PE_LEN
        invariant
            bytes@.len() <= PE_LEN,
        decreases PE_LEN - bytes@.len(),
    {
        bytes.push(0);
    }
    let mut pe = PeImage { bytes };
    let dos: [u8; 2] = [0x4D, 0x5A];
    pe.write(0, dos.as_slice());
    let ghost one = pe.bytes@;
    assert(one.subrange(0, 2) =~= seq![0x4Du8, 0x5Au8]);
    pe.u32(0x3C, COFF);
    let signature: [u8; 4] = [0x50, 0x45, 0, 0];
    pe.write(COFF, signature.as_slice());
    let ghost two = pe.bytes@;
    assert(two.subrange(COFF as int, COFF + 4) =~= seq![0x50u8, 0x45u8, 0u8, 0u8]);
    pe.u16(COFF + 4, 0x8664);
    pe.u16(COFF + 20, 0xF0);
    pe.u16(OPTIONAL, 0x20B);
    pe.u32(OPTIONAL + 56, PE_LEN);
    assert(pe.bytes@.subrange(0, 2) =~= one.subrange(0, 2));
    assert(pe.bytes@.subrange(COFF as int, COFF + 4) =~= two.subrange(COFF as int, COFF + 4));
    pe
}

proof fn lemma_pe_kept(a: Seq<u8>, b: Seq<u8>)
    requires
        is_pe(a),
        a.len() == b.len(),
        forall|i: int| 0 <= i < DIRECTORIES ==> #[trigger] b[i] == a[i],
    ensures
        is_pe(b),
{
    assert(b.subrange(0, 2) =~= a.subrange(0, 2));
    assert(b.subrange(0x3C, 0x40) =~= a.subrange(0x3C, 0x40));
    assert(b.subrange(COFF as int, COFF + 4) =~= a.subrange(COFF as int, COFF + 4));
    assert(b.subrange(OPTIONAL + 56, OPTIONAL + 60) =~= a.subrange(OPTIONAL + 56, OPTIONAL + 60));
}

/// The smallest image that a Unity version can be read out of: 6000.3, which is
/// Unity 6.
pub fn unity_player() -> (image: Vec<u8>)
    ensures
        is_pe(image@),
        has_version(image@, 6000, 3),
{
    let mut pe = pe_headers();
    let ghost begun = pe.bytes@;
    pe.dir(2, 0x200, 0x200);
    pe.resource(0x200, 0x10, 0x40, false);
    pe.resource(0x240, 1, 0x80, false);
    pe.resource(0x280, 0x409, 0xC0, true);
    pe.u32(0x2C0, 0x300);
    pe.u32(0x328, 0xFEEF_04BD);
    pe.u32(0x32C, 0x0001_0000);
    pe.u32(0x330, 0x1770_0003);
    pe.u32(0x334, 0);
    proof {
        lemma_pe_kept(begun, pe.bytes@);
    }
    pe.bytes
}

/// An image exporting `mono_assembly_foreach`, whose first instruction gives the
/// address of the list of assemblies.
pub fn mono_module() -> (image: Vec<u8>)
    ensures
        is_pe(image@),
        leads_to(image@, MONO_BASE, METADATA_BASE),
{
    let mut pe = pe_headers();
    let ghost begun = pe.bytes@;
    // Its size matters: a function whose address falls inside the export table
    // is a forwarded export, and is discarded.
    pe.dir(0, 0x200, 0x40);
    pe.u32(0x214, 1);
    pe.u32(0x218, 1);
    pe.u32(0x21C, 0x300);
    pe.u32(0x220, 0x310);
    pe.u32(0x224, 0x320);
    pe.u32(0x300, 0x400);
    pe.u32(0x310, 0x330);
    pe.u16(0x320, 0);
    let name: [u8; 22] = [
        109, 111, 110, 111, 95, 97, 115, 115, 101, 109, 98, 108, 121, 95, 102, 111, 114, 101, 97, 99,
        104, 0,
    ];
    pe.write(0x330, name.as_slice());
    let ghost named = pe.bytes@;
    assert(named.subrange(0x330, 0x345) =~= exported());
    let load: [u8; 3] = [0x48, 0x8B, 0x0D];
    pe.write(0x400, load.as_slice());
    let ghost loaded = pe.bytes@;
    assert(loaded.subrange(0x400, 0x403) =~= seq![0x48u8, 0x8Bu8, 0x0Du8]);
    let displacement: u32 = (METADATA_BASE - (MONO_BASE + 0x407)) as u32;
    pe.u32(0x403, displacement);
    proof {
        lemma_pe_kept(begun, pe.bytes@);
        assert(pe.bytes@.subrange(0x330, 0x345) =~= named.subrange(0x330, 0x345));
        assert(pe.bytes@.subrange(0x400, 0x403) =~= loaded.subrange(0x400, 0x403));
        assert(exported().len() == 21);
    }
    pe.bytes
}

} // verus!
