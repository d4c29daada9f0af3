//! Writing a capture: which bytes go into its blob, and where.
use vstd::prelude::*;
use vstd::slice::slice_subrange;

use crate::memory::{same_bytes, Memory, MemoryRange, ModuleInfo};
use crate::snapshot::index::{
    arranged, encode_index, lemma_arranged, lemma_upto, records, upto, Chunk, Stored,
};
use crate::snapshot::manifest::{
    flattened, manifest_lines, placed_modules, Manifest, ManifestView, Metadata, MetadataView, Step,
};
use crate::snapshot::{
    byte, bytes_of, contents_in, in_one_range, is_tidy, lemma_through, Image, Snapshot, CHUNK,
};
use crate::text::{lines_of, owned};

verus! {

/// What a capture answers to reads.
pub struct Served {
    pub image: Image,
    pub table: Seq<Stored>,
}

/// What a range adds to a capture.
pub struct Kept {
    pub chunks: Seq<Chunk>,
    /// The bytes behind the blob's end.
    pub fresh: Seq<u8>,
    /// How many chunks matched the base.
    pub inherited: nat,
}

impl Kept {
    pub open spec fn nothing() -> Self {
        Kept { chunks: Seq::empty(), fresh: Seq::empty(), inherited: 0 }
    }
}

/// How long the piece at `at` of `len` bytes is.
pub open spec fn piece_len(len: nat, at: int) -> int {
    if len - at < CHUNK {
        len - at
    } else {
        CHUNK as int
    }
}

/// What the piece at `at` of a range adds: nothing where the base reads the same
/// there, and itself otherwise. The blob ended at `end` before the range.
pub open spec fn kept_piece(
    base: Served,
    address: u64,
    bytes: Seq<u8>,
    end: u64,
    so_far: Kept,
    at: int,
) -> Kept {
    let n = piece_len(bytes.len(), at);
    let piece = bytes.subrange(at, at + n);
    if contents_in(base.image, base.table, (address + at) as u64, n as nat) == Some(piece) {
        Kept { inherited: so_far.inherited + 1, ..so_far }
    } else {
        Kept {
            chunks: so_far.chunks.push(
                Chunk {
                    address: (address + at) as u64,
                    len: n as u64,
                    offset: (end + so_far.fresh.len()) as u64,
                },
            ),
            fresh: so_far.fresh + piece,
            ..so_far
        }
    }
}

/// What a range adds from `at` on, chunk by chunk against the base.
pub open spec fn kept_from(
    base: Served,
    address: u64,
    bytes: Seq<u8>,
    end: u64,
    so_far: Kept,
    at: int,
) -> Kept
    decreases bytes.len() - at,
{
    if 0 <= at < bytes.len() {
        kept_from(
            base,
            address,
            bytes,
            end,
            kept_piece(base, address, bytes, end, so_far, at),
            at + piece_len(bytes.len(), at),
        )
    } else {
        so_far
    }
}

/// What a range adds to a capture whose blob ends at `end`: all of it, or with a
/// base the pieces that are new.
pub open spec fn kept(base: Option<Served>, address: u64, bytes: Seq<u8>, end: u64) -> Kept {
    match base {
        Some(base) => kept_from(base, address, bytes, end, Kept::nothing(), 0),
        None => Kept {
            chunks: seq![Chunk { address, len: bytes.len() as u64, offset: end }],
            fresh: bytes,
            inherited: 0,
        },
    }
}

/// What goes into a capture's directory beside its blob.
pub struct Files {
    pub manifest: String,
    pub index: Vec<u8>,
}

/// Writes a capture. The blob grows by what [`Writer::add_range`] returns, in
/// the order of the calls.
pub struct Writer {
    metadata: Metadata,
    modules: Vec<ModuleInfo>,
    ranges: Vec<MemoryRange>,
    readable: Vec<bool>,
    chunks: Vec<Chunk>,
    written: u64,
    base: Option<Snapshot>,
    skipped: u64,
    inherited: u64,
}

/// What a [`Writer`] has gathered.
pub struct WriterView {
    pub metadata: MetadataView,
    pub modules: Seq<(Seq<char>, u64, u64)>,
    pub ranges: Seq<MemoryRange>,
    pub readable: Seq<bool>,
    pub chunks: Seq<Chunk>,
    /// How long the blob is.
    pub written: u64,
    /// When set, only what differs from this is kept.
    pub base: Option<Served>,
    /// Ranges listed without bytes.
    pub skipped: nat,
    /// Chunks that matched the base.
    pub inherited: nat,
}

/// What a capture serves as a base.
pub open spec fn served(base: Option<Snapshot>) -> Option<Served> {
    match base {
        Some(base) => Some(Served { image: base.image(), table: base.table() }),
        None => None,
    }
}

impl View for Writer {
    type V = WriterView;

    closed spec fn view(&self) -> WriterView {
        WriterView {
            metadata: self.metadata@,
            modules: placed_modules(self.modules@),
            ranges: self.ranges@,
            readable: self.readable@,
            chunks: self.chunks@,
            written: self.written,
            base: served(self.base),
            skipped: self.skipped as nat,
            inherited: self.inherited as nat,
        }
    }
}

impl WriterView {
    /// With one more range, whose bytes are `bytes`, or that could not be read.
    pub open spec fn added(self, range: MemoryRange, bytes: Option<Seq<u8>>) -> Self {
        match bytes {
            Some(bytes) => {
                let more = kept(self.base, range.address, bytes, self.written);
                WriterView {
                    ranges: self.ranges.push(range),
                    readable: self.readable.push(true),
                    chunks: self.chunks + more.chunks,
                    written: (self.written + more.fresh.len()) as u64,
                    inherited: self.inherited + more.inherited,
                    ..self
                }
            },
            None => WriterView {
                ranges: self.ranges.push(range),
                readable: self.readable.push(false),
                skipped: self.skipped + 1,
                ..self
            },
        }
    }

    /// What the manifest says of it.
    pub open spec fn lined(self) -> ManifestView {
        ManifestView {
            metadata: self.metadata,
            modules: self.modules,
            ranges: self.ranges,
            readable: self.readable,
            notes: lines_of(self.metadata.notes),
        }
    }
}

impl Writer {
    /// As many marks as ranges.
    #[verifier::type_invariant]
    spec fn marked(&self) -> bool {
        self.readable@.len() == self.ranges@.len()
    }

    /// Starts a capture.
    pub fn create(metadata: Metadata) -> (writer: Self)
        ensures
            writer@ == (WriterView {
                metadata: metadata@,
                modules: Seq::empty(),
                ranges: Seq::empty(),
                readable: Seq::empty(),
                chunks: Seq::empty(),
                written: 0,
                base: None,
                skipped: 0,
                inherited: 0,
            }),
    {
        let writer = Writer {
            metadata,
            modules: Vec::new(),
            ranges: Vec::new(),
            readable: Vec::new(),
            chunks: Vec::new(),
            written: 0,
            base: None,
            skipped: 0,
            inherited: 0,
        };
        assert(writer@.modules =~= Seq::empty());
        writer
    }

    /// Stores only what differs from `base`. The base's own bytes are never
    /// copied, so a sequence costs one full capture and a delta a step.
    pub fn with_base(self, base: Snapshot) -> (writer: Self)
        ensures
            writer@ == (WriterView {
                metadata: MetadataView {
                    base: Some(base.directory_name@),
                    ..self@.metadata
                },
                base: Some(Served { image: base.image(), table: base.table() }),
                ..self@
            }),
    {
        proof {
            use_type_invariant(&self);
        }
        let Writer {
            metadata,
            modules,
            ranges,
            readable,
            chunks,
            written,
            base: _,
            skipped,
            inherited,
        } = self;
        let mut metadata = metadata;
        metadata.base = Some(owned(base.directory_name.as_str()));
        Writer {
            metadata,
            modules,
            ranges,
            readable,
            chunks,
            written,
            base: Some(base),
            skipped,
            inherited,
        }
    }

    pub fn set_step(&mut self, index: u32, event: &str)
        ensures
            final(self)@ == (WriterView {
                metadata: MetadataView {
                    step: Some((index, event@)),
                    ..old(self)@.metadata
                },
                ..old(self)@
            }),
    {
        proof {
            use_type_invariant(&*self);
        }
        let step = Some(Step { index, event: owned(event) });
        self.metadata.step = step;
    }

    pub fn add_modules(&mut self, modules: Vec<ModuleInfo>)
        ensures
            final(self)@ == (WriterView { modules: placed_modules(modules@), ..old(self)@ }),
    {
        proof {
            use_type_invariant(&*self);
        }
        self.modules = modules;
    }

    /// Stores one range's bytes, or the parts of them that are new, and returns
    /// what the blob grows by.
    ///
    /// A range that cannot be read is still recorded, without bytes, so replay
    /// reports "unreadable" rather than "absent".
    pub fn add_range(&mut self, range: MemoryRange, bytes: Option<&[u8]>) -> (fresh: Vec<u8>)
        requires
            old(self)@.skipped < u64::MAX,
            bytes matches Some(bytes) ==> range.address + bytes@.len() <= 0x1_0000_0000_0000_0000
                && old(self)@.written + bytes@.len() <= u64::MAX && old(self)@.inherited
                + bytes@.len() <= u64::MAX,
        ensures
            final(self)@ == old(self)@.added(
                range,
                match bytes {
                    Some(bytes) => Some(bytes@),
                    None => None,
                },
            ),
            fresh@ == match bytes {
                Some(bytes) => kept(
                    old(self)@.base,
                    range.address,
                    bytes@,
                    old(self)@.written,
                ).fresh,
                None => Seq::empty(),
            },
    {
        proof {
            use_type_invariant(&*self);
        }
        let mut taken = Writer::create(Metadata::default());
        core::mem::swap(self, &mut taken);
        let Writer {
            metadata,
            modules,
            ranges,
            readable,
            chunks,
            written,
            base,
            skipped,
            inherited,
        } = taken;
        let mut ranges = ranges;
        let mut readable = readable;
        let mut chunks = chunks;
        let mut written = written;
        let mut skipped = skipped;
        let mut inherited = inherited;
        let mut fresh: Vec<u8> = Vec::new();
        ranges.push(range);
        match bytes {
            None => {
                readable.push(false);
                skipped = skipped + 1;
            },
            Some(bytes) => {
                readable.push(true);
                match &base {
                    Some(below) => {
                        let (mut more, matched) = new_pieces(
                            below,
                            range.address,
                            bytes,
                            written,
                            &mut fresh,
                        );
                        proof {
                            lemma_kept_bounds(
                                Served { image: below.image(), table: below.table() },
                                range.address,
                                bytes@,
                                written,
                                Kept::nothing(),
                                0,
                            );
                        }
                        chunks.append(&mut more);
                        inherited = inherited + matched;
                        written = written + fresh.len() as u64;
                    },
                    None => {
                        let len: usize = bytes.len();
                        let mut k: usize = 0;
                        while k < len
                            invariant
                                k <= len,
                                len == bytes@.len(),
                                fresh@ == bytes@.take(k as int),
                            decreases len - k,
                        {
                            fresh.push(bytes[k]);
                            k = k + 1;
                            assert(fresh@ =~= bytes@.take(k as int));
                        }
                        assert(fresh@ =~= bytes@);
                        let ghost had = chunks@;
                        chunks.push(
                            Chunk { address: range.address, len: len as u64, offset: written },
                        );
                        assert(chunks@ =~= had + seq![
                            Chunk { address: range.address, len: len as u64, offset: written },
                        ]);
                        written = written + len as u64;
                    },
                }
            },
        }
        *self = Writer {
            metadata,
            modules,
            ranges,
            readable,
            chunks,
            written,
            base,
            skipped,
            inherited,
        };
        fresh
    }

    pub fn bytes_written(&self) -> (written: u64)
        ensures
            written == self@.written,
    {
        self.written
    }

    /// How many ranges were recorded without bytes.
    pub fn skipped(&self) -> (skipped: u64)
        ensures
            skipped == self@.skipped,
    {
        self.skipped
    }

    /// How many chunks matched the base and were not stored again.
    pub fn inherited(&self) -> (inherited: u64)
        ensures
            inherited == self@.inherited,
    {
        self.inherited
    }

    /// The manifest, and the index of where the chunks lie in the blob.
    pub fn finish(self) -> (files: Files)
        ensures
            files.manifest@ == flattened(manifest_lines(self@.lined())),
            files.index@ == records(self@.chunks),
    {
        proof {
            use_type_invariant(&self);
        }
        let Writer {
            metadata,
            modules,
            ranges,
            readable,
            chunks,
            written: _,
            base: _,
            skipped: _,
            inherited: _,
        } = self;
        let index = encode_index(&chunks);
        let manifest = Manifest { metadata, modules, ranges, readable };
        Files { manifest: manifest.text(), index }
    }
}

/// The pieces of `bytes` that `base` does not read the same, and how many it
/// does. Their bytes are put behind `fresh`; the blob ended at `end` before.
fn new_pieces(base: &Snapshot, address: u64, bytes: &[u8], end: u64, fresh: &mut Vec<u8>) -> (result: (
    Vec<Chunk>,
    u64,
))
    requires
        old(fresh)@.len() == 0,
        address + bytes@.len() <= 0x1_0000_0000_0000_0000,
        end + bytes@.len() <= u64::MAX,
    ensures
        ({
            let below = Served { image: base.image(), table: base.table() };
            let more = kept_from(below, address, bytes@, end, Kept::nothing(), 0);
            &&& result.0@ == more.chunks
            &&& final(fresh)@ == more.fresh
            &&& result.1 == more.inherited
        }),
{
    let ghost below = Served { image: base.image(), table: base.table() };
    let ghost all = kept_from(below, address, bytes@, end, Kept::nothing(), 0);
    let mut chunks: Vec<Chunk> = Vec::new();
    let mut inherited: u64 = 0;
    let len: usize = bytes.len();
    let mut at: usize = 0;
    assert(fresh@ =~= Seq::<u8>::empty());
    while at < len
        invariant
            at <= len,
            len == bytes@.len(),
            address + len <= 0x1_0000_0000_0000_0000,
            end + len <= u64::MAX,
            below == (Served { image: base.image(), table: base.table() }),
            fresh@.len() <= at,
            inherited <= at,
            all == kept_from(
                below,
                address,
                bytes@,
                end,
                Kept { chunks: chunks@, fresh: fresh@, inherited: inherited as nat },
                at as int,
            ),
        decreases len - at,
    {
        let take: usize = if ((len - at) as u64) < CHUNK {
            len - at
        } else {
            CHUNK as usize
        };
        let piece = slice_subrange(bytes, at, at + take);
        let place: u64 = (address as u128 + at as u128) as u64;
        let ghost so_far = Kept { chunks: chunks@, fresh: fresh@, inherited: inherited as nat };
        let mut comparison: Vec<u8> = vec![0u8; take];
        let read = base.read(place, comparison.as_mut_slice());
        if read && same_bytes(comparison.as_slice(), piece) {
            inherited = inherited + 1;
        } else {
            let offset: u64 = end + fresh.len() as u64;
            chunks.push(Chunk { address: place, len: take as u64, offset });
            let mut k: usize = 0;
            let ghost had = fresh@;
            while k < take
                invariant
                    k <= take,
                    take == piece@.len(),
                    fresh@ == had + piece@.take(k as int),
                decreases take - k,
            {
                fresh.push(piece[k]);
                k = k + 1;
                assert(fresh@ =~= had + piece@.take(k as int));
            }
            assert(piece@.take(k as int) =~= piece@);
        }
        assert(Kept { chunks: chunks@, fresh: fresh@, inherited: inherited as nat } == kept_piece(
            below,
            address,
            bytes@,
            end,
            so_far,
            at as int,
        ));
        at = at + take;
    }
    (chunks, inherited)
}

proof fn lemma_kept_bounds(
    base: Served,
    address: u64,
    bytes: Seq<u8>,
    end: u64,
    so_far: Kept,
    at: int,
)
    requires
        0 <= at <= bytes.len(),
    ensures
        kept_from(base, address, bytes, end, so_far, at).fresh.len() <= so_far.fresh.len()
            + bytes.len() - at,
        kept_from(base, address, bytes, end, so_far, at).inherited <= so_far.inherited
            + bytes.len() - at,
    decreases bytes.len() - at,
{
    if at < bytes.len() {
        lemma_kept_bounds(
            base,
            address,
            bytes,
            end,
            kept_piece(base, address, bytes, end, so_far, at),
            at + piece_len(bytes.len(), at),
        );
    }
}

/// A range adds no more than its bytes.
pub proof fn lemma_added_bounds(view: WriterView, range: MemoryRange, bytes: Option<Seq<u8>>)
    requires
        bytes matches Some(bytes) ==> view.written + bytes.len() <= u64::MAX,
    ensures
        bytes matches Some(bytes) ==> {
            &&& view.added(range, Some(bytes)).written <= view.written + bytes.len()
            &&& view.added(range, Some(bytes)).inherited <= view.inherited + bytes.len()
            &&& view.added(range, Some(bytes)).skipped == view.skipped
        },
{
    match (view.base, bytes) {
        (Some(base), Some(bytes)) => {
            lemma_kept_bounds(base, range.address, bytes, view.written, Kept::nothing(), 0);
        },
        _ => {},
    }
}

/// What a writer has gathered after several ranges.
pub open spec fn gathered(
    start: WriterView,
    pieces: Seq<(MemoryRange, Option<Seq<u8>>)>,
) -> WriterView
    decreases pieces.len(),
{
    if pieces.len() == 0 {
        start
    } else {
        gathered(start, pieces.drop_last()).added(pieces.last().0, pieces.last().1)
    }
}

/// The blob after several ranges.
pub open spec fn blob_of(start: WriterView, pieces: Seq<(MemoryRange, Option<Seq<u8>>)>) -> Seq<u8>
    decreases pieces.len(),
{
    if pieces.len() == 0 {
        Seq::empty()
    } else {
        let before = gathered(start, pieces.drop_last());
        blob_of(start, pieces.drop_last()) + match pieces.last().1 {
            Some(bytes) => kept(
                before.base,
                pieces.last().0.address,
                bytes,
                before.written,
            ).fresh,
            None => Seq::empty(),
        }
    }
}

/// Ranges as a running process has them: none overlapping, each that could be
/// read with as many bytes as it is long.
pub open spec fn are_mappings(pieces: Seq<(MemoryRange, Option<Seq<u8>>)>) -> bool {
    &&& forall|i: int|
        0 <= i < pieces.len() ==> {
            let (range, bytes) = #[trigger] pieces[i];
            &&& range.address + range.size <= 0x1_0000_0000_0000_0000
            &&& bytes matches Some(bytes) ==> bytes.len() == range.size
        }
    &&& forall|i: int, j: int|
        0 <= i < pieces.len() && 0 <= j < pieces.len() && i != j ==> apart(
            #[trigger] pieces[i].0,
            #[trigger] pieces[j].0,
        )
}

/// Neither reaches into the other, and they do not begin at one address.
pub open spec fn apart(a: MemoryRange, b: MemoryRange) -> bool {
    &&& a.address != b.address
    &&& a.address + a.size <= b.address || b.address + b.size <= a.address
}

/// How many bytes several ranges hold.
pub open spec fn size_of(pieces: Seq<(MemoryRange, Option<Seq<u8>>)>) -> nat
    decreases pieces.len(),
{
    if pieces.len() == 0 {
        0
    } else {
        size_of(pieces.drop_last()) + pieces.last().0.size as nat
    }
}

/// A writer that has gathered nothing yet.
pub open spec fn is_new(start: WriterView) -> bool {
    &&& start.ranges.len() == 0
    &&& start.readable.len() == 0
    &&& start.chunks.len() == 0
    &&& start.written == 0
}

/// What the base holds at an address.
spec fn below(base: Option<Served>, at: u64) -> Option<u8> {
    match base {
        Some(base) => byte(base.image, at),
        None => None,
    }
}

/// Whether one of the chunks holds the byte at `at`.
spec fn is_covered(chunks: Seq<Chunk>, at: u64) -> bool {
    exists|i: int| 0 <= i < chunks.len() && (#[trigger] chunks[i]).covers(at as int)
}

/// Two chunks that hold no byte in common.
spec fn clear(a: Chunk, b: Chunk) -> bool {
    a.len == 0 || b.len == 0 || a.address + a.len <= b.address || b.address + b.len <= a.address
}

/// The chunks hold what was there, and what they do not hold, the base does.
spec fn is_sound(
    chunks: Seq<Chunk>,
    blob: Seq<u8>,
    base: Option<Served>,
    there: spec_fn(u64) -> Option<u8>,
) -> bool {
    &&& forall|i: int|
        0 <= i < chunks.len() ==> (#[trigger] chunks[i]).address + chunks[i].len
            <= 0x1_0000_0000_0000_0000 && chunks[i].offset + chunks[i].len <= blob.len()
    &&& forall|i: int, at: u64|
        0 <= i < chunks.len() && #[trigger] chunks[i].covers(at as int) ==> there(at) == Some(
            blob[chunks[i].offset + (at - chunks[i].address)],
        )
    &&& forall|at: u64|
        #[trigger] there(at) is Some ==> is_covered(chunks, at) || below(base, at) == there(at)
    &&& forall|i: int, j: int|
        0 <= i < chunks.len() && 0 <= j < chunks.len() && i != j ==> clear(
            #[trigger] chunks[i],
            #[trigger] chunks[j],
        )
}

/// What was there, with one more run of bytes.
spec fn with_run(
    there: spec_fn(u64) -> Option<u8>,
    address: u64,
    bytes: Seq<u8>,
) -> spec_fn(u64) -> Option<u8> {
    |at: u64|
        if address <= at < address + bytes.len() {
            Some(bytes[at - address])
        } else {
            there(at)
        }
}

proof fn lemma_keep(
    chunks: Seq<Chunk>,
    blob: Seq<u8>,
    base: Option<Served>,
    there: spec_fn(u64) -> Option<u8>,
    address: u64,
    bytes: Seq<u8>,
)
    requires
        is_sound(chunks, blob, base, there),
        address + bytes.len() <= 0x1_0000_0000_0000_0000,
        blob.len() + bytes.len() <= u64::MAX,
        forall|at: u64| address <= at < address + bytes.len() ==> (#[trigger] there(at)) is None,
    ensures
        is_sound(
            chunks.push(Chunk { address, len: bytes.len() as u64, offset: blob.len() as u64 }),
            blob + bytes,
            base,
            with_run(there, address, bytes),
        ),
{
    let new = Chunk { address, len: bytes.len() as u64, offset: blob.len() as u64 };
    let after = chunks.push(new);
    let all = blob + bytes;
    let now = with_run(there, address, bytes);
    let n = chunks.len() as int;
    assert forall|i: int| 0 <= i < n implies clear(#[trigger] chunks[i], new) by {
        let old_one = chunks[i];
        if !clear(old_one, new) {
            let at: u64 = if old_one.address < address {
                address
            } else {
                old_one.address
            };
            assert(chunks[i].covers(at as int));
            assert(there(at) is None);
        }
    }
    assert forall|i: int, at: u64|
        0 <= i < after.len() && #[trigger] after[i].covers(at as int) implies now(at) == Some(
        all[after[i].offset + (at - after[i].address)],
    ) by {
        if i < n {
            assert(chunks[i].covers(at as int));
            assert(clear(chunks[i], new));
            let place = chunks[i].offset + (at - chunks[i].address);
            assert(all[place] == blob[place]);
        } else {
            assert(all[blob.len() + (at - address)] == bytes[at - address]);
        }
    }
    assert forall|at: u64| #[trigger] now(at) is Some implies is_covered(after, at) || below(
        base,
        at,
    ) == now(at) by {
        if address <= at < address + bytes.len() {
            assert(after[n].covers(at as int));
        } else {
            assert(there(at) is Some);
            if is_covered(chunks, at) {
                let i = choose|i: int|
                    0 <= i < chunks.len() && (#[trigger] chunks[i]).covers(at as int);
                assert(after[i].covers(at as int));
            }
        }
    }
    assert forall|i: int, j: int|
        0 <= i < after.len() && 0 <= j < after.len() && i != j implies clear(
        #[trigger] after[i],
        #[trigger] after[j],
    ) by {
        if i < n && j < n {
            assert(clear(chunks[i], chunks[j]));
        } else if i < n {
            assert(clear(chunks[i], new));
        } else {
            assert(clear(chunks[j], new));
        }
    }
}

proof fn lemma_inherit(
    chunks: Seq<Chunk>,
    blob: Seq<u8>,
    base: Served,
    there: spec_fn(u64) -> Option<u8>,
    address: u64,
    bytes: Seq<u8>,
)
    requires
        is_sound(chunks, blob, Some(base), there),
        address + bytes.len() <= 0x1_0000_0000_0000_0000,
        forall|at: u64| address <= at < address + bytes.len() ==> (#[trigger] there(at)) is None,
        contents_in(base.image, base.table, address, bytes.len()) == Some(bytes),
        is_tidy(base.image),
    ensures
        is_sound(chunks, blob, Some(base), with_run(there, address, bytes)),
{
    let now = with_run(there, address, bytes);
    lemma_through(base.image, address, bytes.len());
    assert forall|i: int, at: u64|
        0 <= i < chunks.len() && #[trigger] chunks[i].covers(at as int) implies now(at) == Some(
        blob[chunks[i].offset + (at - chunks[i].address)],
    ) by {
        assert(there(at) is Some);
    }
    assert forall|at: u64| #[trigger] now(at) is Some implies is_covered(chunks, at) || below(
        Some(base),
        at,
    ) == now(at) by {
        if address <= at < address + bytes.len() {
            let k = at - address;
            assert(byte(base.image, (address + k) as u64) is Some);
            assert(bytes_of(base.image, address, bytes.len())[k] == bytes[k]);
        } else {
            assert(there(at) is Some);
        }
    }
}

/// Chunk by chunk against the base, the soundness carries along.
proof fn lemma_kept_from(
    chunks: Seq<Chunk>,
    blob: Seq<u8>,
    base: Served,
    there: spec_fn(u64) -> Option<u8>,
    address: u64,
    bytes: Seq<u8>,
    so_far: Kept,
    at: int,
)
    requires
        0 <= at <= bytes.len(),
        address + bytes.len() <= 0x1_0000_0000_0000_0000,
        so_far.fresh.len() <= at,
        blob.len() + bytes.len() <= u64::MAX,
        forall|a: u64| address <= a < address + bytes.len() ==> (#[trigger] there(a)) is None,
        is_tidy(base.image),
        is_sound(
            chunks + so_far.chunks,
            blob + so_far.fresh,
            Some(base),
            with_run(there, address, bytes.take(at)),
        ),
    ensures
        ({
            let all = kept_from(base, address, bytes, blob.len() as u64, so_far, at);
            is_sound(
                chunks + all.chunks,
                blob + all.fresh,
                Some(base),
                with_run(there, address, bytes),
            )
        }),
    decreases bytes.len() - at,
{
    let end = blob.len() as u64;
    if at < bytes.len() {
        let n = piece_len(bytes.len(), at);
        let piece = bytes.subrange(at, at + n);
        let place = (address + at) as u64;
        let now = with_run(there, address, bytes.take(at));
        let next = kept_piece(base, address, bytes, end, so_far, at);
        assert forall|a: u64| place <= a < place + piece.len() implies (#[trigger] now(
            a,
        )) is None by {
            assert(there(a) is None);
        }
        assert(with_run(now, place, piece) =~= with_run(there, address, bytes.take(at + n))) by {
            assert forall|a: u64| #[trigger] with_run(now, place, piece)(a) == with_run(
                there,
                address,
                bytes.take(at + n),
            )(a) by {}
        }
        if contents_in(base.image, base.table, place, n as nat) == Some(piece) {
            lemma_inherit(
                chunks + so_far.chunks,
                blob + so_far.fresh,
                base,
                now,
                place,
                piece,
            );
        } else {
            lemma_keep(
                chunks + so_far.chunks,
                blob + so_far.fresh,
                Some(base),
                now,
                place,
                piece,
            );
            assert(chunks + next.chunks =~= (chunks + so_far.chunks).push(next.chunks.last()));
            assert(blob + next.fresh =~= (blob + so_far.fresh) + piece);
        }
        lemma_kept_from(chunks, blob, base, there, address, bytes, next, at + n);
    } else {
        assert(bytes.take(at) =~= bytes);
    }
}

/// What several ranges hold, byte by byte.
spec fn there_in(pieces: Seq<(MemoryRange, Option<Seq<u8>>)>) -> spec_fn(u64) -> Option<u8>
    decreases pieces.len(),
{
    if pieces.len() == 0 {
        |at: u64| None
    } else {
        match pieces.last().1 {
            Some(bytes) => with_run(
                there_in(pieces.drop_last()),
                pieces.last().0.address,
                bytes,
            ),
            None => there_in(pieces.drop_last()),
        }
    }
}

proof fn lemma_there(pieces: Seq<(MemoryRange, Option<Seq<u8>>)>, at: u64)
    requires
        are_mappings(pieces),
    ensures
        there_in(pieces)(at) is Some ==> exists|i: int|
            0 <= i < pieces.len() && (#[trigger] pieces[i]).1 is Some && pieces[i].0.spans(at),
        forall|i: int|
            0 <= i < pieces.len() && pieces[i].1 is Some && #[trigger] pieces[i].0.spans(at)
                ==> there_in(pieces)(at) == Some(pieces[i].1->0[at - pieces[i].0.address]),
    decreases pieces.len(),
{
    if pieces.len() > 0 {
        let init = pieces.drop_last();
        lemma_init(pieces);
        lemma_there(init, at);
        let n = pieces.len() - 1;
        let (range, bytes) = pieces[n];
        assert forall|i: int|
            0 <= i < pieces.len() && pieces[i].1 is Some && #[trigger] pieces[i].0.spans(
                at,
            ) implies there_in(pieces)(at) == Some(pieces[i].1->0[at - pieces[i].0.address]) by {
            if i < n {
                assert(init[i] == pieces[i]);
                assert(apart(pieces[i].0, pieces[n].0));
            }
        }
        if there_in(pieces)(at) is Some {
            if bytes is Some && range.spans(at) {
                assert(pieces[n].1 is Some);
            } else {
                assert(there_in(init)(at) is Some);
                let i = choose|i: int|
                    0 <= i < init.len() && (#[trigger] init[i]).1 is Some && init[i].0.spans(at);
                assert(pieces[i] == init[i]);
            }
        }
    }
}

proof fn lemma_init(pieces: Seq<(MemoryRange, Option<Seq<u8>>)>)
    requires
        are_mappings(pieces),
        pieces.len() > 0,
    ensures
        are_mappings(pieces.drop_last()),
{
    let init = pieces.drop_last();
    assert forall|i: int| 0 <= i < init.len() implies #[trigger] init[i] == pieces[i] by {}
    assert forall|i: int, j: int|
        0 <= i < init.len() && 0 <= j < init.len() && i != j implies apart(
        #[trigger] init[i].0,
        #[trigger] init[j].0,
    ) by {
        assert(apart(pieces[i].0, pieces[j].0));
    }
}

/// After any ranges the chunks and the blob hold what those held.
proof fn lemma_gathered(start: WriterView, pieces: Seq<(MemoryRange, Option<Seq<u8>>)>)
    requires
        is_new(start),
        are_mappings(pieces),
        size_of(pieces) <= u64::MAX,
        start.base matches Some(base) ==> is_tidy(base.image),
    ensures
        ({
            let after = gathered(start, pieces);
            let blob = blob_of(start, pieces);
            &&& after.base == start.base
            &&& after.written == blob.len()
            &&& blob.len() <= size_of(pieces)
            &&& after.ranges == pieces.map_values(|p: (MemoryRange, Option<Seq<u8>>)| p.0)
            &&& after.readable == pieces.map_values(|p: (MemoryRange, Option<Seq<u8>>)| p.1 is Some)
            &&& is_sound(after.chunks, blob, start.base, there_in(pieces))
        }),
    decreases pieces.len(),
{
    let after = gathered(start, pieces);
    let blob = blob_of(start, pieces);
    if pieces.len() == 0 {
        assert(after.ranges =~= pieces.map_values(|p: (MemoryRange, Option<Seq<u8>>)| p.0));
        assert(after.readable =~= pieces.map_values(
            |p: (MemoryRange, Option<Seq<u8>>)| p.1 is Some,
        ));
    } else {
        let init = pieces.drop_last();
        lemma_init(pieces);
        lemma_gathered(start, init);
        let before = gathered(start, init);
        let had = blob_of(start, init);
        let there = there_in(init);
        let n = pieces.len() - 1;
        let (range, bytes) = pieces[n];
        assert(after.ranges =~= pieces.map_values(|p: (MemoryRange, Option<Seq<u8>>)| p.0));
        assert(after.readable =~= pieces.map_values(
            |p: (MemoryRange, Option<Seq<u8>>)| p.1 is Some,
        ));
        match bytes {
            None => {
                assert(blob =~= had);
            },
            Some(bytes) => {
                assert forall|at: u64|
                    range.address <= at < range.address + bytes.len() implies (#[trigger] there(
                    at,
                )) is None by {
                    lemma_there(init, at);
                    if there(at) is Some {
                        let i = choose|i: int|
                            0 <= i < init.len() && (#[trigger] init[i]).1 is Some && init[i].0.spans(
                                at,
                            );
                        assert(init[i] == pieces[i]);
                        assert(apart(pieces[i].0, pieces[n].0));
                    }
                }
                match start.base {
                    Some(base) => {
                        let more = kept_from(
                            base,
                            range.address,
                            bytes,
                            before.written,
                            Kept::nothing(),
                            0,
                        );
                        assert(before.chunks + Kept::nothing().chunks =~= before.chunks);
                        assert(had + Kept::nothing().fresh =~= had);
                        assert(with_run(there, range.address, bytes.take(0)) =~= there) by {
                            assert forall|a: u64| #[trigger] with_run(
                                there,
                                range.address,
                                bytes.take(0),
                            )(a) == there(a) by {}
                        }
                        lemma_kept_bounds(
                            base,
                            range.address,
                            bytes,
                            before.written,
                            Kept::nothing(),
                            0,
                        );
                        lemma_kept_from(
                            before.chunks,
                            had,
                            base,
                            there,
                            range.address,
                            bytes,
                            Kept::nothing(),
                            0,
                        );
                    },
                    None => {
                        lemma_keep(before.chunks, had, None, there, range.address, bytes);
                        assert(after.chunks =~= before.chunks.push(
                            Chunk {
                                address: range.address,
                                len: bytes.len() as u64,
                                offset: had.len() as u64,
                            },
                        ));
                    },
                }
            },
        }
    }
}

/// Sound chunks, arranged, answer for every byte.
proof fn lemma_byte(
    chunks: Seq<Chunk>,
    blob: Seq<u8>,
    base: Option<Served>,
    there: spec_fn(u64) -> Option<u8>,
    at: u64,
)
    requires
        is_sound(chunks, blob, base, there),
        forall|i: int|
            0 <= i < chunks.len() && (#[trigger] chunks[i]).len == 0 ==> there(chunks[i].address)
                is None,
        there(at) is Some,
    ensures
        byte(
            Image {
                chunks: arranged(chunks),
                blob,
                base: match base {
                    Some(base) => Some(Box::new(base.image)),
                    None => None,
                },
            },
            at,
        ) == there(at),
{
    let sorted = arranged(chunks);
    lemma_arranged(chunks);
    lemma_upto(sorted, at);
    let n = upto(sorted, at);
    if is_covered(chunks, at) {
        let i = choose|i: int| 0 <= i < chunks.len() && (#[trigger] chunks[i]).covers(at as int);
        let chunk = chunks[i];
        assert(chunks.contains(chunk));
        assert(sorted.contains(chunk));
        let k = sorted.index_of(chunk);
        assert(k < n) by {
            if n <= k {
                assert(sorted[k].address > at);
            }
        }
        let last = sorted[n - 1];
        assert(sorted.contains(last));
        assert(chunks.contains(last));
        let j = chunks.index_of(last);
        assert(last.address <= at);
        if k < n - 1 {
            assert(sorted[k].address <= sorted[n - 1].address);
        }
        if i != j {
            assert(clear(chunks[i], chunks[j]));
            if chunks[j].len == 0 {
                assert(chunks[i].covers(chunks[j].address as int));
                assert(there(chunks[j].address) is None);
            }
        }
        assert(last == chunk);
        assert(chunks[i].covers(at as int));
    } else {
        if n > 0 {
            assert(sorted.contains(sorted[n - 1]));
            assert(chunks.contains(sorted[n - 1]));
            let j = chunks.index_of(sorted[n - 1]);
            assert(!chunks[j].covers(at as int));
        }
    }
}

/// The pieces of a range that are kept are none of them empty.
proof fn lemma_kept_lens(
    base: Served,
    address: u64,
    bytes: Seq<u8>,
    end: u64,
    so_far: Kept,
    at: int,
)
    requires
        0 <= at <= bytes.len(),
        bytes.len() <= u64::MAX,
        forall|i: int| 0 <= i < so_far.chunks.len() ==> (#[trigger] so_far.chunks[i]).len > 0,
    ensures
        ({
            let all = kept_from(base, address, bytes, end, so_far, at);
            forall|i: int| 0 <= i < all.chunks.len() ==> (#[trigger] all.chunks[i]).len > 0
        }),
    decreases bytes.len() - at,
{
    if at < bytes.len() {
        let next = kept_piece(base, address, bytes, end, so_far, at);
        let n = piece_len(bytes.len(), at);
        assert forall|i: int| 0 <= i < next.chunks.len() implies (#[trigger] next.chunks[i]).len
            > 0 by {
            if i < so_far.chunks.len() {
                assert(next.chunks[i] == so_far.chunks[i]);
            }
        }
        lemma_kept_lens(base, address, bytes, end, next, at + n);
        assert(kept_from(base, address, bytes, end, so_far, at) == kept_from(
            base,
            address,
            bytes,
            end,
            next,
            at + n,
        ));
    }
}

/// A chunk that holds nothing is that of an empty range.
proof fn lemma_empties(
    start: WriterView,
    pieces: Seq<(MemoryRange, Option<Seq<u8>>)>,
    i: int,
) -> (j: int)
    requires
        is_new(start),
        are_mappings(pieces),
        0 <= i < gathered(start, pieces).chunks.len(),
        gathered(start, pieces).chunks[i].len == 0,
    ensures
        0 <= j < pieces.len(),
        pieces[j].0.size == 0,
        pieces[j].0.address == gathered(start, pieces).chunks[i].address,
    decreases pieces.len(),
{
    let init = pieces.drop_last();
    let before = gathered(start, init);
    let n = pieces.len() - 1;
    lemma_init(pieces);
    if i < before.chunks.len() {
        let j = lemma_empties(start, init, i);
        assert(pieces[j] == init[j]);
        j
    } else {
        let (range, bytes) = pieces[n];
        match (before.base, bytes) {
            (Some(base), Some(bytes)) => {
                lemma_kept_lens(
                    base,
                    range.address,
                    bytes,
                    before.written,
                    Kept::nothing(),
                    0,
                );
            },
            _ => {},
        }
        n
    }
}

/// No chunk that holds nothing stands where something was.
proof fn lemma_nothing_hides(start: WriterView, pieces: Seq<(MemoryRange, Option<Seq<u8>>)>)
    requires
        is_new(start),
        are_mappings(pieces),
    ensures
        forall|i: int|
            0 <= i < gathered(start, pieces).chunks.len() && (#[trigger] gathered(
                start,
                pieces,
            ).chunks[i]).len == 0 ==> there_in(pieces)(gathered(start, pieces).chunks[i].address)
                is None,
{
    let chunks = gathered(start, pieces).chunks;
    assert forall|i: int| 0 <= i < chunks.len() && (#[trigger] chunks[i]).len == 0 implies there_in(
        pieces,
    )(chunks[i].address) is None by {
        let j = lemma_empties(start, pieces, i);
        let at = chunks[i].address;
        lemma_there(pieces, at);
        if there_in(pieces)(at) is Some {
            let k = choose|k: int|
                0 <= k < pieces.len() && (#[trigger] pieces[k]).1 is Some && pieces[k].0.spans(at);
            assert(k != j);
            assert(apart(pieces[k].0, pieces[j].0));
        }
    }
}

/// In a table of mappings kept apart, the last that begins at or below an
/// address inside one of them, or at its beginning, is that one.
proof fn lemma_table(pieces: Seq<(MemoryRange, Option<Seq<u8>>)>, i: int, at: u64)
    requires
        are_mappings(pieces),
        0 <= i < pieces.len(),
        pieces[i].0.spans(at) || pieces[i].0.address == at,
    ensures
        ({
            let table = arranged(
                crate::snapshot::table_of(
                    pieces.map_values(|p: (MemoryRange, Option<Seq<u8>>)| p.0),
                    pieces.map_values(|p: (MemoryRange, Option<Seq<u8>>)| p.1 is Some),
                ),
            );
            let n = upto(table, at);
            &&& 0 < n <= table.len()
            &&& table[n - 1] == (Stored {
                address: pieces[i].0.address,
                size: pieces[i].0.size,
                readable: pieces[i].1 is Some,
            })
            &&& n < table.len() ==> pieces[i].0.address + pieces[i].0.size <= table[n].address
        }),
{
    let listing = crate::snapshot::table_of(
        pieces.map_values(|p: (MemoryRange, Option<Seq<u8>>)| p.0),
        pieces.map_values(|p: (MemoryRange, Option<Seq<u8>>)| p.1 is Some),
    );
    let table = arranged(listing);
    lemma_arranged(listing);
    lemma_upto(table, at);
    let n = upto(table, at);
    let mine = listing[i];
    assert(listing.contains(mine));
    assert(table.contains(mine));
    let k = table.index_of(mine);
    assert(k < n) by {
        if n <= k {
            assert(table[k].address > at);
        }
    }
    let last = table[n - 1];
    assert(table.contains(last));
    assert(listing.contains(last));
    let j = listing.index_of(last);
    assert(last == listing[j]);
    assert(last.address <= at);
    if k < n - 1 {
        assert(table[k].address <= table[n - 1].address);
    }
    if i != j {
        assert(apart(pieces[i].0, pieces[j].0));
    }
    if n < table.len() {
        let next = table[n];
        assert(next.address > at);
        assert(table.contains(next));
        assert(listing.contains(next));
        let m = listing.index_of(next);
        assert(next == listing[m]);
        if m != i {
            assert(apart(pieces[i].0, pieces[m].0));
        }
    }
}

/// Whether `snapshot` is what opens from a writer's files, its blob and its base,
/// which is tidy, once the ranges of `pieces` have been added to a new writer.
pub open spec fn is_capture_of(
    start: WriterView,
    pieces: Seq<(MemoryRange, Option<Seq<u8>>)>,
    directory_name: Seq<char>,
    view: ManifestView,
    snapshot: Snapshot,
) -> bool {
    &&& is_new(start)
    &&& are_mappings(pieces)
    &&& size_of(pieces) <= u64::MAX
    &&& start.base matches Some(base) ==> is_tidy(base.image)
    &&& view.ranges == gathered(start, pieces).ranges
    &&& view.readable == gathered(start, pieces).readable
    &&& snapshot.opened(
        directory_name,
        view,
        records(gathered(start, pieces).chunks),
        blob_of(start, pieces),
        match start.base {
            Some(base) => Some(base.image),
            None => None,
        },
    )
}

/// What lies in one range that could be read, reads as it was.
proof fn lemma_read_back(
    start: WriterView,
    pieces: Seq<(MemoryRange, Option<Seq<u8>>)>,
    directory_name: Seq<char>,
    view: ManifestView,
    snapshot: Snapshot,
    i: int,
    at: u64,
    n: nat,
)
    requires
        is_capture_of(start, pieces, directory_name, view, snapshot),
        0 <= i < pieces.len(),
        pieces[i].1 is Some,
        pieces[i].0.holds(at, n),
        n > 0 || at == pieces[i].0.address,
    ensures
        snapshot.contents(at, n) == Some(
            pieces[i].1->0.subrange(at - pieces[i].0.address, at - pieces[i].0.address + n),
        ),
{
    let after = gathered(start, pieces);
    let blob = blob_of(start, pieces);
    let range = pieces[i].0;
    let bytes = pieces[i].1->0;
    lemma_gathered(start, pieces);
    lemma_nothing_hides(start, pieces);
    crate::snapshot::index::an_index_reads_back(after.chunks);
    lemma_table(pieces, i, at);
    let table = snapshot.table();
    lemma_arranged(crate::snapshot::table_of(view.ranges, view.readable));
    assert(in_one_range(table, at, n));
    assert forall|k: int| 0 <= k < n implies (#[trigger] byte(snapshot.image(), (at + k) as u64))
        == Some(bytes[at - range.address + k]) by {
        let place = (at + k) as u64;
        assert(pieces[i].0.spans(place));
        lemma_there(pieces, place);
        lemma_byte(after.chunks, blob, start.base, there_in(pieces), place);
    }
    assert(bytes_of(snapshot.image(), at, n) =~= bytes.subrange(
        at - range.address,
        at - range.address + n,
    ));
    a_capture_is_tidy(start, pieces, directory_name, view, snapshot);
    lemma_through(snapshot.image(), at, n);
}

/// No chunk of a capture reaches into the next, so that one stored against
/// another, however many steps down, can be stored against in turn.
pub proof fn a_capture_is_tidy(
    start: WriterView,
    pieces: Seq<(MemoryRange, Option<Seq<u8>>)>,
    directory_name: Seq<char>,
    view: ManifestView,
    snapshot: Snapshot,
)
    requires
        is_capture_of(start, pieces, directory_name, view, snapshot),
    ensures
        is_tidy(snapshot.image()),
{
    let after = gathered(start, pieces);
    let blob = blob_of(start, pieces);
    let there = there_in(pieces);
    lemma_gathered(start, pieces);
    lemma_nothing_hides(start, pieces);
    crate::snapshot::index::an_index_reads_back(after.chunks);
    let chunks = after.chunks;
    assert forall|i: int, j: int|
        0 <= i < chunks.len() && 0 <= j < chunks.len() && i != j implies fit(
        #[trigger] chunks[i],
        #[trigger] chunks[j],
    ) by {
        assert(clear(chunks[i], chunks[j]));
        if chunks[i].len == 0 && chunks[j].covers(chunks[i].address as int) {
            assert(there(chunks[i].address) is None);
        }
        if chunks[j].len == 0 && chunks[i].covers(chunks[j].address as int) {
            assert(there(chunks[j].address) is None);
        }
    }
    lemma_fit(chunks);
    lemma_arranged(chunks);
    let sorted = arranged(chunks);
    assert forall|i: int, j: int| 0 <= i < j < sorted.len() implies (#[trigger] sorted[i]).address
        + sorted[i].len <= (#[trigger] sorted[j]).address by {
        assert(fit(sorted[i], sorted[j]));
        assert(sorted[i].address <= sorted[j].address);
    }
}

/// Two chunks that can stand side by side in a capture.
spec fn fit(a: Chunk, b: Chunk) -> bool {
    &&& a.address + a.len <= b.address || b.address + b.len <= a.address
    &&& a.address == b.address ==> a.len == 0 && b.len == 0
}

proof fn lemma_fit(chunks: Seq<Chunk>)
    requires
        forall|i: int, j: int|
            0 <= i < chunks.len() && 0 <= j < chunks.len() && i != j ==> fit(
                #[trigger] chunks[i],
                #[trigger] chunks[j],
            ),
    ensures
        forall|i: int, j: int|
            0 <= i < arranged(chunks).len() && 0 <= j < arranged(chunks).len() && i != j ==> fit(
                #[trigger] arranged(chunks)[i],
                #[trigger] arranged(chunks)[j],
            ),
    decreases chunks.len(),
{
    if chunks.len() > 0 {
        let init = chunks.drop_last();
        let new = chunks.last();
        let before = arranged(init);
        let sorted = arranged(chunks);
        assert forall|i: int, j: int|
            0 <= i < init.len() && 0 <= j < init.len() && i != j implies fit(
            #[trigger] init[i],
            #[trigger] init[j],
        ) by {
            assert(fit(chunks[i], chunks[j]));
        }
        lemma_fit(init);
        lemma_arranged(init);
        lemma_upto(before, new.address);
        let at = upto(before, new.address);
        assert forall|i: int| 0 <= i < before.len() implies fit(#[trigger] before[i], new) by {
            assert(before.contains(before[i]));
            assert(init.contains(before[i]));
            let k = init.index_of(before[i]);
            assert(fit(chunks[k], chunks[chunks.len() - 1]));
        }
        assert forall|i: int, j: int|
            0 <= i < sorted.len() && 0 <= j < sorted.len() && i != j implies fit(
            #[trigger] sorted[i],
            #[trigger] sorted[j],
        ) by {
            let a = if i < at {
                i
            } else {
                i - 1
            };
            let b = if j < at {
                j
            } else {
                j - 1
            };
            if i == at {
                assert(fit(before[b], new));
            } else if j == at {
                assert(fit(before[a], new));
            } else {
                assert(fit(before[a], before[b]));
            }
        }
    }
}

/// A capture reads back whole: every range that could be read gives its bytes,
/// wherever they are kept, and one that could not be read answers no read.
pub proof fn a_capture_reads_back(
    start: WriterView,
    pieces: Seq<(MemoryRange, Option<Seq<u8>>)>,
    directory_name: Seq<char>,
    view: ManifestView,
    snapshot: Snapshot,
    i: int,
)
    requires
        is_capture_of(start, pieces, directory_name, view, snapshot),
        0 <= i < pieces.len(),
    ensures
        pieces[i].1 matches Some(bytes) ==> snapshot.contents(
            pieces[i].0.address,
            pieces[i].0.size as nat,
        ) == Some(bytes),
        pieces[i].1 is None ==> forall|at: u64, n: nat|
            pieces[i].0.spans(at) || at == pieces[i].0.address ==> (#[trigger] snapshot.contents(
                at,
                n,
            )) is None,
{
    let (range, bytes) = pieces[i];
    match bytes {
        Some(bytes) => {
            lemma_read_back(
                start,
                pieces,
                directory_name,
                view,
                snapshot,
                i,
                range.address,
                range.size as nat,
            );
            assert(bytes.subrange(0, range.size as int) =~= bytes);
        },
        None => {
            lemma_gathered(start, pieces);
            assert forall|at: u64, n: nat|
                pieces[i].0.spans(at) || at == pieces[i].0.address implies (
            #[trigger] snapshot.contents(at, n)) is None by {
                lemma_table(pieces, i, at);
            }
        },
    }
}

/// The range that answers a read of `n` bytes at `at`: one that could be read and
/// holds all of them.
pub open spec fn is_answered_by(
    pieces: Seq<(MemoryRange, Option<Seq<u8>>)>,
    i: int,
    at: u64,
    n: nat,
) -> bool {
    0 <= i < pieces.len() && pieces[i].1 is Some && pieces[i].0.holds(at, n)
}

/// A capture answers a read exactly where one range that could be read holds all
/// of it, with the bytes that were there: not below, between or above the ranges,
/// not across the end of one, and not in one that could not be read.
pub proof fn a_capture_answers_within_a_range(
    start: WriterView,
    pieces: Seq<(MemoryRange, Option<Seq<u8>>)>,
    directory_name: Seq<char>,
    view: ManifestView,
    snapshot: Snapshot,
    at: u64,
    n: nat,
)
    requires
        is_capture_of(start, pieces, directory_name, view, snapshot),
        n > 0,
    ensures
        snapshot.contents(at, n) is Some <==> exists|i: int| #[trigger]
            is_answered_by(pieces, i, at, n),
        forall|i: int| #[trigger]
            is_answered_by(pieces, i, at, n) ==> snapshot.contents(at, n) == Some(
                pieces[i].1->0.subrange(at - pieces[i].0.address, at - pieces[i].0.address + n),
            ),
{
    assert forall|i: int| #[trigger] is_answered_by(pieces, i, at, n) implies snapshot.contents(
        at,
        n,
    ) == Some(
        pieces[i].1->0.subrange(at - pieces[i].0.address, at - pieces[i].0.address + n),
    ) by {
        lemma_read_back(start, pieces, directory_name, view, snapshot, i, at, n);
    }
    if snapshot.contents(at, n) is Some {
        lemma_gathered(start, pieces);
        let listing = crate::snapshot::table_of(view.ranges, view.readable);
        let table = snapshot.table();
        lemma_arranged(listing);
        lemma_upto(table, at);
        let last = table[upto(table, at) - 1];
        assert(table.contains(last));
        assert(listing.contains(last));
        let i = listing.index_of(last);
        assert(listing[i] == last);
        assert(is_answered_by(pieces, i, at, n));
    }
}

} // verus!
