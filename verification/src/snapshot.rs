//! Capturing a real process's memory, and serving it back offline.
//!
//! A snapshot is a text manifest, one blob of raw bytes and an index of where
//! its chunks lie. It may also be a *delta*: a capture that names another as
//! its `base` and stores only the [`CHUNK`]-sized pieces that differ from it,
//! which is what makes a recorded sequence of captures cost hundreds of MiB a
//! step instead of gigabytes apiece. Reads fall through to the base for
//! anything not stored.
//!
//! It is the *oracle* rather than the deliverable: it shows what the game's
//! memory actually looks like, which is what keeps a synthesized fixture from
//! enshrining a misunderstanding.
pub mod find;
pub mod index;
pub mod manifest;
pub mod version;
pub mod writer;

use vstd::prelude::*;
use vstd::string::StringExecFns;

use crate::live::module_views;
use crate::memory::{is_coherent, FakeProcess, Memory, MemoryRange, ModuleInfo};
use crate::snapshot::index::{
    arrange, arranged, count_upto, decode_index, in_order, lemma_upto, lemma_upto_is, listed, upto,
    Chunk, Stored,
};
use crate::snapshot::manifest::{
    are_pathless, manifest_in, placed_modules, Manifest, ManifestView, Metadata, MetadataView,
    FORMAT_VERSION,
};
use crate::text::{decimal_text, owned, push_decimal};

verus! {

/// Granularity of a delta capture, chosen by measurement rather than taste.
///
/// Between two captures of one idle state seconds apart, the fraction of memory
/// that differs is 5.4% at 4 KiB, 14.7% at 64 KiB and 25.5% at 1 MiB -- against
/// index sizes of 71255, 12140 and 1408 records. 64 KiB is the knee: a few
/// hundred MiB a step, and an index small enough to read in one go.
pub const CHUNK: u64 = 65536;

/// Where a capture's bytes are: its own chunks in address order, the blob they
/// lie in, and what it stores differences against.
pub struct Image {
    pub chunks: Seq<Chunk>,
    pub blob: Seq<u8>,
    pub base: Option<Box<Image>>,
}

/// The byte at `at`: out of the last chunk that begins at or below it, where
/// that reaches so far, and the base's otherwise.
pub open spec fn byte(image: Image, at: u64) -> Option<u8>
    decreases image,
{
    let n = upto(image.chunks, at);
    if n > 0 && image.chunks[n - 1].covers(at as int) {
        let chunk = image.chunks[n - 1];
        let offset = chunk.offset + (at - chunk.address);
        if offset < image.blob.len() {
            Some(image.blob[offset])
        } else {
            None
        }
    } else {
        match image.base {
            Some(base) => byte(*base, at),
            None => None,
        }
    }
}

/// Whether every byte of a range is held.
pub open spec fn holds(image: Image, address: u64, len: nat) -> bool {
    forall|k: int| 0 <= k < len ==> (#[trigger] byte(image, (address + k) as u64)) is Some
}

/// The bytes of a range that is held.
pub open spec fn bytes_of(image: Image, address: u64, len: nat) -> Seq<u8> {
    Seq::new(len, |k: int| byte(image, (address + k) as u64)->0)
}

/// Whether a read lies in one mapping that could be read, the last that begins at
/// or below it.
pub open spec fn in_one_range(table: Seq<Stored>, address: u64, len: nat) -> bool {
    let n = upto(table, address);
    &&& n > 0
    &&& table[n - 1].readable
    &&& address - table[n - 1].address + len <= table[n - 1].size
    &&& address + len <= 0x1_0000_0000_0000_0000
}

/// Bytes, and what comes behind them.
pub open spec fn joined(bytes: Seq<u8>, rest: Option<Seq<u8>>) -> Option<Seq<u8>> {
    match rest {
        Some(rest) => Some(bytes + rest),
        None => None,
    }
}

/// The bytes from `at` on as they are stitched together: out of a chunk as far as
/// it reaches, and where there is none out of the base, as far as to the next.
pub open spec fn through(image: Image, at: u64, len: nat) -> Option<Seq<u8>>
    decreases image, len,
{
    let n = upto(image.chunks, at);
    if len == 0 {
        Some(Seq::empty())
    } else if n > 0 && image.chunks[n - 1].covers(at as int) {
        let chunk = image.chunks[n - 1];
        let ahead = chunk.address + chunk.len - at;
        let take = if ahead < len {
            ahead
        } else {
            len as int
        };
        let offset = chunk.offset + (at - chunk.address);
        if offset + take > image.blob.len() {
            None
        } else {
            joined(
                image.blob.subrange(offset, offset + take),
                through(image, (at + take) as u64, (len - take) as nat),
            )
        }
    } else {
        let take = if n < image.chunks.len() && at < image.chunks[n].address < at + len {
            image.chunks[n].address - at
        } else {
            len as int
        };
        match image.base {
            Some(base) => match through(*base, at, take as nat) {
                Some(bytes) => joined(
                    bytes,
                    through(image, (at + take) as u64, (len - take) as nat),
                ),
                None => None,
            },
            None => None,
        }
    }
}

/// What a capture answers to a read: a read spanning two mappings fails as a
/// whole, and where the bytes then come from, the capture itself or a base, is
/// a question of storage, not of meaning.
pub open spec fn contents_in(image: Image, table: Seq<Stored>, address: u64, len: nat) -> Option<
    Seq<u8>,
> {
    if in_one_range(table, address, len) {
        through(image, address, len)
    } else {
        None
    }
}

/// Whether no chunk reaches into the next, here or in a base.
pub open spec fn is_tidy(image: Image) -> bool
    decreases image,
{
    &&& forall|i: int, j: int|
        0 <= i < j < image.chunks.len() ==> (#[trigger] image.chunks[i]).address
            + image.chunks[i].len <= (#[trigger] image.chunks[j]).address
    &&& match image.base {
        Some(base) => is_tidy(*base),
        None => true,
    }
}

/// A capture's mappings, as its manifest lists them.
pub open spec fn table_of(ranges: Seq<MemoryRange>, readable: Seq<bool>) -> Seq<Stored> {
    Seq::new(
        ranges.len(),
        |i: int|
            Stored { address: ranges[i].address, size: ranges[i].size, readable: readable[i] },
    )
}

/// The bytes of a capture, its own and those it inherits.
pub struct Store {
    chunks: Vec<Chunk>,
    table: Vec<Stored>,
    blob: Vec<u8>,
    base: Option<Box<Store>>,
}

impl Store {
    #[verifier::type_invariant]
    spec fn ordered(&self) -> bool {
        in_order(self.chunks@) && in_order(self.table@)
    }

    /// Where the bytes are.
    pub closed spec fn image(self) -> Image
        decreases self,
    {
        Image {
            chunks: self.chunks@,
            blob: self.blob@,
            base: match self.base {
                Some(base) => Some(Box::new(base.image())),
                None => None,
            },
        }
    }

    /// The mappings, in address order.
    pub closed spec fn table(self) -> Seq<Stored> {
        self.table@
    }

    /// Satisfies a read from this capture's own bytes and its base's, without
    /// asking whether one mapping holds it: the outermost capture has done that.
    #[verifier::spinoff_prover]
    #[verifier::rlimit(40)]
    fn read_through(&self, address: u64, len: usize, out: &mut Vec<u8>) -> (ok: bool)
        requires
            address + len <= 0x1_0000_0000_0000_0000,
        ensures
            ok == (through(self.image(), address, len as nat) is Some),
            ok ==> final(out)@ == old(out)@ + through(self.image(), address, len as nat)->0,
        decreases self,
    {
        proof {
            use_type_invariant(self);
        }
        let ghost image = self.image();
        let ghost before = out@;
        let ghost mut gone: Seq<u8> = Seq::empty();
        let ghost whole = through(image, address, len as nat);
        let mut done: usize = 0;
        assert(joined(gone, whole) == whole) by {
            if whole is Some {
                assert(gone + whole->0 =~= whole->0);
            }
        }
        assert(out@ =~= before + gone);
        while done < len
            invariant
                in_order(self.chunks@),
                image == self.image(),
                done <= len,
                address + len <= 0x1_0000_0000_0000_0000,
                out@ == before + gone,
                whole == through(image, address, len as nat),
                whole == joined(
                    gone,
                    through(image, (address + done) as u64, (len - done) as nat),
                ),
            decreases len - done,
        {
            let at: u64 = (address as u128 + done as u128) as u64;
            let remaining: usize = len - done;
            let n: usize = count_upto(&self.chunks, at);
            let ghost mid = out@;
            let ghost had = gone;
            proof {
                lemma_upto(self.chunks@, at);
            }
            if n > 0 && at - self.chunks[n - 1].address < self.chunks[n - 1].len {
                let chunk: Chunk = self.chunks[n - 1];
                let available: u64 = chunk.len - (at - chunk.address);
                let take: usize = if available < remaining as u64 {
                    available as usize
                } else {
                    remaining
                };
                let offset: u128 = chunk.offset as u128 + (at - chunk.address) as u128;
                let held: usize = self.blob.len();
                if offset + take as u128 > held as u128 {
                    return false;
                }
                let from: usize = offset as usize;
                let mut k: usize = 0;
                while k < take
                    invariant
                        k <= take,
                        held == self.blob@.len(),
                        from + take <= held,
                        out@ == mid + self.blob@.subrange(from as int, from + k),
                    decreases take - k,
                {
                    out.push(self.blob[from + k]);
                    k = k + 1;
                    assert(out@ =~= mid + self.blob@.subrange(from as int, from + k));
                }
                proof {
                    let bytes = self.blob@.subrange(from as int, from + take);
                    gone = had + bytes;
                    assert(out@ =~= before + gone);
                    lemma_joined(
                        had,
                        bytes,
                        through(image, (at + take) as u64, (remaining - take) as nat),
                    );
                }
                done = done + take;
            } else {
                // Only up to the next chunk held here, so that a read spanning
                // changed and unchanged memory is stitched from both.
                let take: usize = if n < self.chunks.len() && self.chunks[n].address - at
                    < remaining as u64 {
                    (self.chunks[n].address - at) as usize
                } else {
                    remaining
                };
                match &self.base {
                    None => {
                        return false;
                    },
                    Some(base) => {
                        if !base.read_through(at, take, out) {
                            return false;
                        }
                        proof {
                            let bytes = through(base.image(), at, take as nat)->0;
                            gone = had + bytes;
                            assert(out@ =~= before + gone);
                            lemma_joined(
                                had,
                                bytes,
                                through(image, (at + take) as u64, (remaining - take) as nat),
                            );
                        }
                        done = done + take;
                    },
                }
            }
        }
        assert(gone + Seq::<u8>::empty() =~= gone);
        true
    }

    /// Fills `buf` with what lies at `address`, where one mapping that could be
    /// read holds all of it.
    fn fill(&self, address: u64, buf: &mut [u8]) -> (ok: bool)
        ensures
            final(buf)@.len() == old(buf)@.len(),
            ok == (contents_in(self.image(), self.table@, address, old(buf)@.len()) is Some),
            ok ==> final(buf)@ == contents_in(
                self.image(),
                self.table@,
                address,
                old(buf)@.len(),
            )->0,
    {
        proof {
            use_type_invariant(self);
            lemma_upto(self.table@, address);
        }
        let len: usize = buf.len();
        let n: usize = count_upto(&self.table, address);
        if n == 0 {
            return false;
        }
        let range: Stored = self.table[n - 1];
        if !range.readable || (address - range.address) as u128 + len as u128 > range.size as u128 {
            return false;
        }
        if address as u128 + len as u128 > 0x1_0000_0000_0000_0000u128 {
            return false;
        }
        let mut out: Vec<u8> = Vec::new();
        if !self.read_through(address, len, &mut out) {
            return false;
        }
        assert(out@ =~= through(self.image(), address, len as nat)->0);
        proof {
            lemma_through_len(self.image(), address, len as nat);
        }
        let mut k: usize = 0;
        while k < len
            invariant
                k <= len,
                buf@.len() == len,
                out@.len() == len,
                forall|j: int| 0 <= j < k ==> buf@[j] == out@[j],
            decreases len - k,
        {
            buf[k] = out[k];
            k = k + 1;
        }
        assert(buf@ =~= out@);
        true
    }

    /// Bytes held here, excluding anything inherited.
    fn captured_bytes(&self) -> (total: u64)
        requires
            total_len(self.chunks@) <= u64::MAX,
        ensures
            total == total_len(self.chunks@),
    {
        let mut total: u64 = 0;
        let mut i: usize = 0;
        assert(total_len(self.chunks@.take(0)) == 0);
        while i < self.chunks.len()
            invariant
                i <= self.chunks@.len(),
                total == total_len(self.chunks@.take(i as int)),
                total_len(self.chunks@) <= u64::MAX,
            decreases self.chunks@.len() - i,
        {
            proof {
                let next = self.chunks@.take(i + 1);
                assert(next.drop_last() =~= self.chunks@.take(i as int));
                lemma_total_len(self.chunks@, i + 1);
            }
            total = total + self.chunks[i].len;
            i = i + 1;
        }
        assert(self.chunks@.take(i as int) =~= self.chunks@);
        total
    }

    fn chain_length(&self) -> (n: usize)
        requires
            depth(self.image()) <= usize::MAX,
        ensures
            n == depth(self.image()),
        decreases self,
    {
        match &self.base {
            Some(base) => 1 + base.chain_length(),
            None => 1,
        }
    }
}

/// How many bytes several chunks hold.
pub open spec fn total_len(chunks: Seq<Chunk>) -> nat
    decreases chunks.len(),
{
    if chunks.len() == 0 {
        0
    } else {
        total_len(chunks.drop_last()) + chunks.last().len as nat
    }
}

proof fn lemma_total_len(chunks: Seq<Chunk>, n: int)
    requires
        0 <= n <= chunks.len(),
    ensures
        total_len(chunks.take(n)) <= total_len(chunks),
    decreases chunks.len() - n,
{
    if n < chunks.len() {
        lemma_total_len(chunks, n + 1);
        assert(chunks.take(n + 1).drop_last() =~= chunks.take(n));
    } else {
        assert(chunks.take(n) =~= chunks);
    }
}

/// How many captures deep a chain runs.
pub open spec fn depth(image: Image) -> nat
    decreases image,
{
    match image.base {
        Some(base) => 1 + depth(*base),
        None => 1,
    }
}

proof fn lemma_joined(a: Seq<u8>, b: Seq<u8>, rest: Option<Seq<u8>>)
    ensures
        joined(a, joined(b, rest)) == joined(a + b, rest),
{
    if rest is Some {
        assert(a + (b + rest->0) =~= a + b + rest->0);
    }
}

/// What is stitched together has as many bytes as were asked for.
proof fn lemma_through_len(image: Image, at: u64, len: nat)
    ensures
        through(image, at, len) matches Some(bytes) ==> bytes.len() == len,
    decreases image, len,
{
    let n = upto(image.chunks, at);
    if len == 0 {
    } else if n > 0 && image.chunks[n - 1].covers(at as int) {
        let chunk = image.chunks[n - 1];
        let ahead = chunk.address + chunk.len - at;
        let take = if ahead < len {
            ahead
        } else {
            len as int
        };
        lemma_through_len(image, (at + take) as u64, (len - take) as nat);
    } else {
        let take = if n < image.chunks.len() && at < image.chunks[n].address < at + len {
            image.chunks[n].address - at
        } else {
            len as int
        };
        match image.base {
            Some(base) => {
                lemma_through_len(*base, at, take as nat);
                lemma_through_len(image, (at + take) as u64, (len - take) as nat);
            },
            None => {},
        }
    }
}

proof fn lemma_split(image: Image, at: u64, take: nat, len: nat)
    requires
        take <= len,
        at + len <= 0x1_0000_0000_0000_0000,
    ensures
        holds(image, at, len) == (holds(image, at, take) && holds(
            image,
            (at + take) as u64,
            (len - take) as nat,
        )),
        bytes_of(image, at, len) == bytes_of(image, at, take) + bytes_of(
            image,
            (at + take) as u64,
            (len - take) as nat,
        ),
{
    let mid = (at + take) as u64;
    let rest = (len - take) as nat;
    assert forall|k: int| 0 <= k < rest implies #[trigger] byte(image, (mid + k) as u64) == byte(
        image,
        (at + (take + k)) as u64,
    ) by {}
    if holds(image, at, take) && holds(image, mid, rest) {
        assert forall|k: int| 0 <= k < len implies (#[trigger] byte(
            image,
            (at + k) as u64,
        )) is Some by {
            if k >= take {
                let j = k - take;
                assert(byte(image, (mid + j) as u64) is Some);
            }
        }
    }
    if holds(image, at, len) {
        assert forall|k: int| 0 <= k < rest implies (#[trigger] byte(
            image,
            (mid + k) as u64,
        )) is Some by {
            assert(byte(image, (at + (take + k)) as u64) is Some);
        }
    }
    assert forall|k: int| 0 <= k < len implies #[trigger] bytes_of(image, at, len)[k] == (bytes_of(
        image,
        at,
        take,
    ) + bytes_of(image, mid, rest))[k] by {
        if k >= take {
            let j = k - take;
            assert(byte(image, (mid + j) as u64) == byte(image, (at + (take + j)) as u64));
        }
    }
    assert(bytes_of(image, at, len) =~= bytes_of(image, at, take) + bytes_of(image, mid, rest));
}

/// In a tidy image, what is stitched together is what stands there byte by byte.
pub proof fn lemma_through(image: Image, at: u64, len: nat)
    requires
        is_tidy(image),
        at + len <= 0x1_0000_0000_0000_0000,
    ensures
        through(image, at, len) == if holds(image, at, len) {
            Some(bytes_of(image, at, len))
        } else {
            None
        },
    decreases image, len,
{
    let chunks = image.chunks;
    let n = upto(chunks, at);
    assert(in_order(chunks));
    lemma_upto(chunks, at);
    if len == 0 {
        assert(bytes_of(image, at, len) =~= Seq::empty());
    } else if n > 0 && chunks[n - 1].covers(at as int) {
        let chunk = chunks[n - 1];
        let ahead = chunk.address + chunk.len - at;
        let take = if ahead < len {
            ahead
        } else {
            len as int
        };
        let offset = chunk.offset + (at - chunk.address);
        assert forall|k: int| 0 <= k < take implies #[trigger] byte(image, (at + k) as u64) == if offset
            + k < image.blob.len() {
            Some(image.blob[offset + k])
        } else {
            None
        } by {
            lemma_upto_is(chunks, (at + k) as u64, n);
        }
        lemma_split(image, at, take as nat, len);
        lemma_through(image, (at + take) as u64, (len - take) as nat);
        if offset + take > image.blob.len() {
            assert(byte(image, (at + (take - 1)) as u64) is None);
        } else {
            assert(bytes_of(image, at, take as nat) =~= image.blob.subrange(offset, offset + take));
        }
    } else {
        let take = if n < chunks.len() && at < chunks[n].address < at + len {
            chunks[n].address - at
        } else {
            len as int
        };
        assert forall|k: int| 0 <= k < take implies #[trigger] byte(image, (at + k) as u64)
            == match image.base {
            Some(base) => byte(*base, (at + k) as u64),
            None => None,
        } by {
            lemma_upto_is(chunks, (at + k) as u64, n);
        }
        lemma_split(image, at, take as nat, len);
        match image.base {
            Some(base) => {
                lemma_through(*base, at, take as nat);
                lemma_through(image, (at + take) as u64, (len - take) as nat);
                if holds(image, at, take as nat) {
                    assert forall|k: int| 0 <= k < take implies (#[trigger] byte(
                        *base,
                        (at + k) as u64,
                    )) is Some by {
                        assert(byte(image, (at + k) as u64) is Some);
                    }
                    assert(bytes_of(image, at, take as nat) =~= bytes_of(*base, at, take as nat)) by {
                        assert forall|k: int| 0 <= k < take implies #[trigger] bytes_of(
                            image,
                            at,
                            take as nat,
                        )[k] == bytes_of(*base, at, take as nat)[k] by {
                            assert(byte(image, (at + k) as u64) == byte(*base, (at + k) as u64));
                        }
                    }
                } else {
                    let k = choose|k: int|
                        0 <= k < take && (#[trigger] byte(image, (at + k) as u64)) is None;
                    assert(byte(*base, (at + k) as u64) is None);
                }
            },
            None => {
                assert(byte(image, (at + 0) as u64) is None);
            },
        }
    }
}

/// Why a capture could not be opened.
pub enum Refused {
    /// It is of another format version.
    Version(u32),
    /// It stores differences against a capture that is not there.
    Baseless(String),
}

impl Refused {
    /// What the refusal says, of the capture at `dir`, and why the base could
    /// not be opened.
    pub fn text(&self, dir: &str, reason: &str) -> (text: String)
        ensures
            text@ == match *self {
                Refused::Version(found) => dir@ + " is format version "@ + decimal_text(
                    found as int,
                ) + "; this build reads "@ + decimal_text(FORMAT_VERSION as int)
                    + ". Recapture it rather than guessing at the difference."@,
                Refused::Baseless(name) => dir@ + " stores differences against "@ + name@
                    + ", which could not be opened: "@ + reason@
                    + ". A delta is unreadable without its base."@,
            },
    {
        let mut out = owned(dir);
        match self {
            Refused::Version(found) => {
                out.append(" is format version ");
                push_decimal(&mut out, *found as u64);
                out.append("; this build reads ");
                push_decimal(&mut out, FORMAT_VERSION as u64);
                out.append(". Recapture it rather than guessing at the difference.");
            },
            Refused::Baseless(name) => {
                out.append(" stores differences against ");
                out.append(name.as_str());
                out.append(", which could not be opened: ");
                out.append(reason);
                out.append(". A delta is unreadable without its base.");
            },
        }
        out
    }
}

/// A capture, served as an address space.
pub struct Snapshot {
    pub store: Store,
    /// The directory's own name, which is how a delta names its base.
    pub directory_name: String,
    pub modules: Vec<ModuleInfo>,
    /// The ranges as the runtime should report them.
    pub ranges: Vec<MemoryRange>,
    pub metadata: Metadata,
}

impl Snapshot {
    /// Where the capture's bytes are.
    pub open spec fn image(self) -> Image {
        self.store.image()
    }

    /// The capture's mappings, in address order.
    pub open spec fn table(self) -> Seq<Stored> {
        self.store.table()
    }

    /// Opens a capture out of what its directory holds: the manifest, the chunk
    /// index and the blob. `base` is the capture that the manifest names as the
    /// one it stores differences against, where that could be opened.
    pub fn open(
        directory_name: &str,
        manifest: &str,
        index: &[u8],
        blob: Vec<u8>,
        base: Option<Snapshot>,
    ) -> (result: Result<Self, Refused>)
        ensures
            match manifest_in(manifest@) {
                Err(found) => result == Err::<Snapshot, Refused>(Refused::Version(found)),
                Ok(view) => match (view.metadata.base, base) {
                    (Some(name), None) => match result {
                        Err(Refused::Baseless(missing)) => missing@ == name,
                        _ => false,
                    },
                    (named, base) => result is Ok && result->Ok_0.opened(
                        directory_name@,
                        view,
                        index@,
                        blob@,
                        match (named, base) {
                            (Some(_), Some(base)) => Some(base.image()),
                            _ => None,
                        },
                    ),
                },
            },
    {
        let parsed = match Manifest::parse(manifest) {
            Ok(parsed) => parsed,
            Err(found) => {
                return Err(Refused::Version(found));
            },
        };
        let Manifest { metadata, modules, ranges, readable } = parsed;
        let below: Option<Box<Store>> = match (&metadata.base, base) {
            (Some(name), None) => {
                return Err(Refused::Baseless(owned(name.as_str())));
            },
            (Some(_), Some(base)) => Some(Box::new(base.store)),
            (None, _) => None,
        };
        let mut listed_ranges: Vec<Stored> = Vec::new();
        let mut i: usize = 0;
        while i < ranges.len() && i < readable.len()
            invariant
                i <= ranges@.len(),
                i <= readable@.len(),
                listed_ranges@ == table_of(ranges@, readable@).take(i as int),
            decreases ranges@.len() - i,
        {
            listed_ranges.push(
                Stored {
                    address: ranges[i].address,
                    size: ranges[i].size,
                    readable: readable[i],
                },
            );
            i = i + 1;
            assert(listed_ranges@ =~= table_of(ranges@, readable@).take(i as int));
        }
        proof {
            lemma_as_many(manifest@);
            assert(i == ranges@.len());
            assert(table_of(ranges@, readable@).take(i as int) =~= table_of(ranges@, readable@));
        }
        let raw = decode_index(index);
        let chunks = arrange(&raw);
        let table = arrange(&listed_ranges);
        let store = Store { chunks, table, blob, base: below };
        Ok(
            Snapshot {
                store,
                directory_name: owned(directory_name),
                modules,
                ranges,
                metadata,
            },
        )
    }

    /// What opening a capture gives: everything the manifest says, and the
    /// chunks and mappings in address order.
    pub open spec fn opened(
        self,
        directory_name: Seq<char>,
        view: ManifestView,
        index: Seq<u8>,
        blob: Seq<u8>,
        base: Option<Image>,
    ) -> bool {
        &&& self.directory_name@ == directory_name
        &&& self.metadata@ == (MetadataView {
            notes: manifest::joined(view.notes),
            ..view.metadata
        })
        &&& placed_modules(self.modules@) == view.modules
        &&& are_pathless(self.modules@)
        &&& self.ranges@ == view.ranges
        &&& self.table() == arranged(table_of(view.ranges, view.readable))
        &&& self.image() == (Image {
            chunks: arranged(listed(index)),
            blob,
            base: match base {
                Some(base) => Some(Box::new(base)),
                None => None,
            },
        })
    }

    /// The captured process, ready to hand to a world.
    pub fn process(self) -> (process: FakeProcess<Snapshot>)
        ensures
            process.pid == self.metadata.pid,
            process.name@ == self.metadata.process_name@,
            manifest::optional(process.path) == manifest::optional(self.metadata.process_path),
            module_views(process.modules@) == module_views(self.modules@),
            process.ranges@ == self.ranges@,
            process.runtime is None,
            process.open,
            process.memory == self,
    {
        let modules = copy_modules(&self.modules);
        let ranges = copy_ranges(&self.ranges);
        let path = match &self.metadata.process_path {
            Some(path) => Some(owned(path.as_str())),
            None => None,
        };
        FakeProcess {
            pid: self.metadata.pid as u64,
            name: owned(self.metadata.process_name.as_str()),
            path,
            modules,
            ranges,
            memory: self,
            runtime: None,
            open: true,
        }
    }

    /// Bytes this capture holds itself, excluding anything inherited.
    pub fn captured_bytes(&self) -> (total: u64)
        requires
            total_len(self.image().chunks) <= u64::MAX,
        ensures
            total == total_len(self.image().chunks),
    {
        self.store.captured_bytes()
    }

    /// How many captures deep the chain runs, this one included.
    pub fn chain_length(&self) -> (n: usize)
        requires
            depth(self.image()) <= usize::MAX,
        ensures
            n == depth(self.image()),
    {
        self.store.chain_length()
    }
}

/// A copy of the module list.
pub fn copy_modules(modules: &Vec<ModuleInfo>) -> (copy: Vec<ModuleInfo>)
    ensures
        module_views(copy@) == module_views(modules@),
{
    let mut copy: Vec<ModuleInfo> = Vec::new();
    let mut i: usize = 0;
    while i < modules.len()
        invariant
            i <= modules@.len(),
            copy@.len() == i,
            module_views(copy@) == module_views(modules@).take(i as int),
        decreases modules@.len() - i,
    {
        copy.push(
            ModuleInfo {
                name: owned(modules[i].name.as_str()),
                address: modules[i].address,
                size: modules[i].size,
                path: match &modules[i].path {
                    Some(path) => Some(owned(path.as_str())),
                    None => None,
                },
            },
        );
        i = i + 1;
        assert(module_views(copy@) =~= module_views(modules@).take(i as int));
    }
    assert(module_views(copy@) =~= module_views(modules@));
    copy
}

/// A copy of the range table.
pub fn copy_ranges(ranges: &Vec<MemoryRange>) -> (copy: Vec<MemoryRange>)
    ensures
        copy@ == ranges@,
{
    let mut copy: Vec<MemoryRange> = Vec::new();
    let mut i: usize = 0;
    while i < ranges.len()
        invariant
            i <= ranges@.len(),
            copy@ == ranges@.take(i as int),
        decreases ranges@.len() - i,
    {
        copy.push(ranges[i]);
        i = i + 1;
        assert(copy@ =~= ranges@.take(i as int));
    }
    assert(copy@ =~= ranges@);
    copy
}

proof fn lemma_as_many(text: Seq<char>)
    ensures
        manifest_in(text) matches Ok(view) ==> view.ranges.len() == view.readable.len(),
{
    lemma_as_many_from(ManifestView::empty(), crate::text::lines_of(text));
}

proof fn lemma_as_many_from(so_far: ManifestView, lines: Seq<Seq<char>>)
    requires
        so_far.ranges.len() == so_far.readable.len(),
    ensures
        manifest::applied_all(so_far, lines) matches Ok(view) ==> view.ranges.len()
            == view.readable.len(),
    decreases lines.len(),
{
    if lines.len() > 0 {
        match manifest::applied_line(so_far, lines[0]) {
            Ok(next) => lemma_as_many_from(next, lines.drop_first()),
            Err(_) => {},
        }
    }
}

impl Memory for Snapshot {
    open spec fn contents(&self, address: u64, len: nat) -> Option<Seq<u8>> {
        contents_in(self.image(), self.table(), address, len)
    }

    fn read(&self, address: u64, buf: &mut [u8]) -> (ok: bool) {
        self.store.fill(address, buf)
    }
}

/// Whether no mapping begins inside one that was listed before it.
pub open spec fn are_apart(table: Seq<Stored>) -> bool {
    forall|i: int, j: int|
        0 <= i < j < table.len() ==> (#[trigger] table[i]).address + table[i].size <= (
        #[trigger] table[j]).address
}

/// Where neither its mappings nor its chunks overlap, a capture reads the same in
/// parts as in one.
pub proof fn mappings_apart_are_coherent(snapshot: Snapshot)
    requires
        in_order(snapshot.table()),
        are_apart(snapshot.table()),
        is_tidy(snapshot.image()),
    ensures
        is_coherent(&snapshot),
{
    let table = snapshot.table();
    let image = snapshot.image();
    assert forall|address: u64, len: nat, at: u64, n: nat|
        n > 0 && address <= at && at + n <= address + len && (#[trigger] snapshot.contents(
            address,
            len,
        )) is Some implies #[trigger] snapshot.contents(at, n) == Some(
        snapshot.contents(address, len)->0.subrange(at - address, at - address + n),
    ) by {
        lemma_upto(table, address);
        lemma_upto(table, at);
        lemma_through(image, address, len);
        lemma_through(image, at, n);
        let i = upto(table, address);
        let m = upto(table, at);
        if m < i {
            assert(table[i - 1].address > at);
        } else if m > i {
            assert(table[i - 1].address + table[i - 1].size <= table[m - 1].address);
        }
        assert forall|k: int| 0 <= k < n implies (#[trigger] byte(image, (at + k) as u64)) is Some by {
            assert(byte(image, (address + (at - address + k)) as u64) is Some);
        }
        assert(bytes_of(image, at, n) =~= bytes_of(image, address, len).subrange(
            at - address,
            at - address + n,
        ));
    }
}

} // verus!
