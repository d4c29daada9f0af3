//! Synthesising a process for the splitter to attach to.
//!
//! The classes a fixture describes are laid out as a Mono runtime has them, and
//! objects are then placed on the heap, each beginning with its class's vtable.
//! [`Builder::finish`] hands over the process, together with what its runtime
//! says of those classes.
use vstd::bytes::{spec_u32_to_le_bytes, spec_u64_to_le_bytes};
use vstd::prelude::*;
use vstd::string::StringExecFns;

use crate::fixture::mono::{are_distinct, fits, is_metadata, lay_out, room_for, texts};
use crate::fixture::pe::{
    has_version, is_pe, leads_to, mono_module, unity_player, MONO_BASE, PE_LEN, UNITY_BASE,
};
use crate::fixture::region::{aligned, grown, overwritten, Region, SPAN};
use crate::fixture::{
    class_views, field_views, ClassFacts, ClassView, FieldFacts, FieldView, Fixture,
};
use crate::memory::flags::{HEAP, MODULE};
use crate::memory::{last_at, placed, FakeProcess, MemoryRange, ModuleInfo, SparseMemory};
use crate::metadata::{Class, Field, Module};
use crate::text::{owned, same};

verus! {

/// Where a vtable's own function slots begin, and so where the static-table
/// pointer sits once [`VTABLE_SIZE`] of them have gone by.
pub const VTABLE_FUNCTIONS: u64 = 0x48;

/// How many function slots each synthetic vtable claims.
///
/// Any number would do -- nothing reads the slots -- but a non-zero gap of known
/// size makes an off-by-one land in the padding.
pub const VTABLE_SIZE: u64 = 4;

/// How long a vtable is: its slots, and the pointer to the static table.
pub const VTABLE_LEN: u64 = STATIC_SLOT + 8;

/// Where the pointer to the static table sits in a vtable.
pub const STATIC_SLOT: u64 = VTABLE_FUNCTIONS + 8 * VTABLE_SIZE;

/// Objects start with the vtable pointer and Mono's sync block.
pub const OBJECT_HEADER: u64 = 0x10;

/// Where the synthetic world's regions sit.
pub const METADATA_BASE: u64 = 0x2000_0000;

/// The managed heap, which is where a scenario's objects go.
pub const HEAP_BASE: u64 = 0x4000_0000;

/// The runtime's table of references to live objects.
pub const TABLE_BASE: u64 = 0x6000_0000;

/// The smallest a mapped range is.
pub const SMALLEST: u64 = 0x1000;

/// The process's id and the name Linux reports for the game: 15 characters of
/// `/proc/<pid>/comm`, which is where the splitter's ambiguous-name handling
/// comes from, so a synthetic world reaches the splitter down the same path a
/// real one does.
pub const PID: u64 = 4242;

/// Where one class ended up, for a test that needs to put an object of it
/// somewhere.
#[derive(Clone, Copy, PartialEq, Eq, Structural, Debug)]
pub struct ClassLayout {
    /// The class itself.
    pub class: u64,
    /// The class's vtable. An object is an instance of this class if and only
    /// if its first pointer is this value, which is exactly how the splitter
    /// recognises a service on the heap.
    pub vtable: u64,
    /// The class's static table, if it has any static fields.
    pub static_table: Option<u64>,
    /// How large an instance is: past the last field the fixture knows of. Not
    /// the game's instance size, which a fixture does not record.
    pub instance_size: u64,
}

/// How far the first `n` fields reach, of those that are static or of those
/// that are not: past the last of them.
pub open spec fn reach(fields: Seq<FieldView>, statics: bool, n: int) -> nat
    decreases n,
{
    if n <= 0 {
        0
    } else {
        let before = reach(fields, statics, n - 1);
        let here = if fields[n - 1].is_static == statics {
            (fields[n - 1].offset + 8) as nat
        } else {
            0
        };
        if here > before {
            here
        } else {
            before
        }
    }
}

/// How large an instance of a class is.
pub open spec fn instance_size(class: ClassView) -> nat {
    let size = reach(class.fields, false, class.fields.len() as int);
    if size > OBJECT_HEADER {
        size
    } else {
        OBJECT_HEADER as nat
    }
}

/// How large a class's static table is; zero where it has none.
pub open spec fn static_size(class: ClassView) -> nat {
    reach(class.fields, true, class.fields.len() as int)
}

/// Every field of a class lies within what it is said to reach.
pub proof fn lemma_reach(fields: Seq<FieldView>, statics: bool, n: int, i: int)
    requires
        0 <= i < n <= fields.len(),
        fields[i].is_static == statics,
    ensures
        fields[i].offset + 8 <= reach(fields, statics, n),
    decreases n,
{
    if i < n - 1 {
        lemma_reach(fields, statics, n - 1, i);
    }
}

pub(crate) fn far(fields: &Vec<FieldFacts>, statics: bool) -> (size: u64)
    ensures
        size == reach(field_views(fields@), statics, fields@.len() as int),
        size <= 0x1_0000_0007,
{
    let mut size: u64 = 0;
    let mut i: usize = 0;
    while i < fields.len()
        invariant
            i <= fields@.len(),
            size <= 0x1_0000_0007,
            size == reach(field_views(fields@), statics, i as int),
        decreases fields@.len() - i,
    {
        assert(field_views(fields@)[i as int] == fields@[i as int]@);
        if fields[i].is_static == statics {
            let here: u64 = fields[i].offset as u64 + 8;
            if here > size {
                size = here;
            }
        }
        i = i + 1;
    }
    size
}

/// Which of the first `n` classes is the last of that image and name.
pub open spec fn class_at(classes: Seq<ClassView>, image: Seq<char>, name: Seq<char>, n: int) -> int
    decreases n,
{
    if n <= 0 {
        -1
    } else if classes[n - 1].image == image && classes[n - 1].name == name {
        n - 1
    } else {
        class_at(classes, image, name, n - 1)
    }
}

/// What a runtime says of a class: its fields under the names they are asked
/// for by.
pub open spec fn fields_of(fields: Seq<FieldView>, n: int) -> Seq<(Seq<char>, u32)>
    decreases n,
{
    if n <= 0 {
        Seq::empty()
    } else {
        let field = fields[n - 1];
        let known = fields_of(fields, n - 1).push((field.name, field.offset));
        match field.requested {
            Some(name) => known.push((name, field.offset)),
            None => known,
        }
    }
}

/// What a list of fields says.
pub open spec fn said_fields(fields: Seq<Field>) -> Seq<(Seq<char>, u32)> {
    fields.map_values(|field: Field| (field.name@, field.offset))
}

/// Whether a class as the runtime describes it is the fixture's: under its name,
/// or without one where the fixture knows it only by the path walked to reach
/// an object of it.
pub open spec fn describes(class: Class, facts: ClassView, layout: ClassLayout) -> bool {
    &&& class.image@ == facts.image
    &&& class.name@ == if facts.image.len() == 0 {
        Seq::empty()
    } else {
        facts.name
    }
    &&& class.vtable == Some(layout.vtable)
    &&& class.static_table == layout.static_table
    &&& said_fields(class.fields@) == fields_of(facts.fields, facts.fields.len() as int)
}

/// The names of the images of the first `n` classes, each once, in order.
pub open spec fn loaded_images(classes: Seq<ClassView>, n: int) -> Seq<Seq<char>>
    decreases n,
{
    if n <= 0 {
        Seq::empty()
    } else {
        let before = loaded_images(classes, n - 1);
        let image = classes[n - 1].image;
        if image.len() == 0 || before.contains(image) {
            before
        } else {
            before.push(image)
        }
    }
}

/// What the runtime says of every class of a fixture.
pub open spec fn describes_all(
    module: Module,
    classes: Seq<ClassView>,
    layouts: Seq<ClassLayout>,
) -> bool {
    &&& module.runtime@ == "Mono V3, 64-bit"@
    &&& texts(module.images@) == loaded_images(classes, classes.len() as int)
    &&& module.classes@.len() == classes.len()
    &&& forall|i: int|
        0 <= i < classes.len() ==> describes(#[trigger] module.classes@[i], classes[i], layouts[i])
}

/// A synthetic process being built from a fixture.
///
/// Built in two steps because the memory is fixed once the process exists:
/// [`Builder::new`] lays out the classes, then objects are placed on the heap,
/// and [`Builder::finish`] hands over the process.
pub struct Builder {
    metadata: Region,
    heap: Region,
    /// The runtime's table of references, if there is one.
    table: Option<Region>,
    names: Vec<(String, String)>,
    layouts: Vec<ClassLayout>,
    module: Module,
    game_version: String,
    classes: Ghost<Seq<ClassView>>,
}

/// What a [`Builder`] has built.
pub struct BuilderView {
    /// The classes, and where each ended up.
    pub classes: Seq<ClassView>,
    pub layouts: Seq<ClassLayout>,
    pub metadata: Seq<u8>,
    pub heap: Seq<u8>,
    /// The runtime's table of references, if there is one.
    pub table: Option<Seq<u8>>,
    pub game_version: Seq<char>,
}

/// Bytes with one more word behind them.
pub open spec fn entered(bytes: Seq<u8>, value: u64) -> Seq<u8> {
    overwritten(grown(bytes, 8), aligned(bytes.len() as int), spec_u64_to_le_bytes(value))
}

impl BuilderView {
    /// Where the next thing on the heap will be.
    pub open spec fn next(self) -> u64 {
        (HEAP_BASE + aligned(self.heap.len() as int)) as u64
    }

    /// Whether `len` more bytes fit on the heap.
    pub open spec fn has_room(self, len: int) -> bool {
        aligned(self.heap.len() as int) + len <= SPAN
    }

    /// Where the class of that image and name ended up.
    pub open spec fn layout(self, image: Seq<char>, name: Seq<char>) -> Option<ClassLayout> {
        let i = class_at(self.classes, image, name, self.classes.len() as int);
        if i < 0 {
            None
        } else {
            Some(self.layouts[i])
        }
    }

    /// With `len` zeroed bytes more on the heap.
    pub open spec fn reserved(self, len: int) -> Self {
        BuilderView { heap: grown(self.heap, len), ..self }
    }

    /// Whether `len` bytes at `address` are on the heap or in the metadata.
    pub open spec fn holds(self, address: u64, len: int) -> bool {
        if HEAP_BASE <= address {
            address - HEAP_BASE + len <= self.heap.len()
        } else {
            METADATA_BASE <= address && address - METADATA_BASE + len <= self.metadata.len()
        }
    }

    /// With `new` over what was at `address`.
    pub open spec fn wrote(self, address: u64, new: Seq<u8>) -> Self {
        if HEAP_BASE <= address {
            BuilderView { heap: overwritten(self.heap, address - HEAP_BASE, new), ..self }
        } else {
            BuilderView {
                metadata: overwritten(self.metadata, address - METADATA_BASE, new),
                ..self
            }
        }
    }

    /// With an object on the heap: zeroed, but for its vtable.
    pub open spec fn with_object(self, vtable: u64, len: int) -> Self {
        self.reserved(len).wrote(self.next(), spec_u64_to_le_bytes(vtable))
    }

    /// With an entry in the runtime's table, where there is one.
    pub open spec fn referring(self, address: u64) -> Self {
        BuilderView {
            table: match self.table {
                Some(table) => Some(entered(table, address)),
                None => None,
            },
            ..self
        }
    }

    /// Whether one more entry fits in the runtime's table.
    pub open spec fn can_refer(self) -> bool {
        self.table matches Some(table) ==> aligned(table.len() as int) + 8 <= SPAN
    }
}

/// Bytes with zeros behind them up to the size of the smallest range.
pub open spec fn padded(bytes: Seq<u8>) -> Seq<u8> {
    Seq::new(
        if bytes.len() < SMALLEST {
            SMALLEST as nat
        } else {
            bytes.len()
        },
        |i: int|
            if i < bytes.len() {
                bytes[i]
            } else {
                0u8
            },
    )
}

fn pad(bytes: Vec<u8>) -> (all: Vec<u8>)
    ensures
        all@ == padded(bytes@),
{
    let mut all = bytes;
    while (all.len() as u64) < SMALLEST
        invariant
            bytes@.len() <= all@.len(),
            all@.len() <= SMALLEST || all@.len() == bytes@.len(),
            forall|i: int| 0 <= i < bytes@.len() ==> all@[i] == bytes@[i],
            forall|i: int| bytes@.len() <= i < all@.len() ==> all@[i] == 0,
        decreases SMALLEST - all@.len(),
    {
        all.push(0);
    }
    assert(all@ =~= padded(bytes@));
    all
}

impl View for Builder {
    type V = BuilderView;

    closed spec fn view(&self) -> BuilderView {
        BuilderView {
            classes: self.classes@,
            layouts: self.layouts@,
            metadata: self.metadata@,
            heap: self.heap@,
            table: match self.table {
                Some(table) => Some(table@),
                None => None,
            },
            game_version: self.game_version@,
        }
    }
}

impl Builder {
    /// Every class is where its layout says and known to the runtime, and the
    /// regions are where they belong.
    pub closed spec fn wf(self) -> bool {
        &&& self.metadata.base() == METADATA_BASE
        &&& self.heap.base() == HEAP_BASE
        &&& self.table matches Some(table) ==> table.base() == TABLE_BASE
        &&& self.names@.len() == self.classes@.len()
        &&& self.layouts@.len() == self.classes@.len()
        &&& forall|i: int|
            0 <= i < self.names@.len() ==> (#[trigger] self.names@[i]).0@ == self.classes@[i].image
                && self.names@[i].1@ == self.classes@[i].name
        &&& describes_all(self.module, self.classes@, self.layouts@)
        &&& forall|i: int|
            0 <= i < self.layouts@.len() ==> fits(
                self.metadata@.len(),
                #[trigger] self.layouts@[i],
                self.classes@[i],
            )
    }

    /// Every layout of a builder lies within the metadata.
    pub proof fn lemma_fits(self, i: int)
        requires
            self.wf(),
            0 <= i < self@.classes.len(),
        ensures
            self@.layouts.len() == self@.classes.len(),
            fits(self@.metadata.len(), self@.layouts[i], self@.classes[i]),
    {
        assert(fits(self.metadata@.len(), self.layouts@[i], self.classes@[i]));
    }

    /// Lays out every class the fixture describes.
    pub fn new(fixture: &Fixture) -> (builder: Self)
        requires
            room_for(class_views(fixture.classes@)) <= SPAN,
        ensures
            builder.wf(),
            builder@.classes == class_views(fixture.classes@),
            is_metadata(builder@.metadata, builder@.classes, builder@.layouts),
            are_distinct(builder@.layouts),
            builder@.heap.len() == 0,
            builder@.table == Some(Seq::<u8>::empty()),
            builder@.game_version == fixture.game_version@,
    {
        let ghost classes = class_views(fixture.classes@);
        let (metadata, layouts) = lay_out(fixture);
        let mut names: Vec<(String, String)> = Vec::new();
        let mut images: Vec<String> = Vec::new();
        let mut known: Vec<Class> = Vec::new();
        let mut i: usize = 0;
        assert(texts(images@) =~= loaded_images(classes, 0));
        while i < fixture.classes.len()
            invariant
                i <= fixture.classes@.len(),
                classes == class_views(fixture.classes@),
                layouts@.len() == classes.len(),
                names@.len() == i,
                known@.len() == i,
                texts(images@) == loaded_images(classes, i as int),
                forall|k: int|
                    0 <= k < i ==> (#[trigger] names@[k]).0@ == classes[k].image && names@[k].1@
                        == classes[k].name,
                forall|k: int|
                    0 <= k < i ==> describes(#[trigger] known@[k], classes[k], layouts@[k]),
            decreases fixture.classes@.len() - i,
        {
            let facts: &ClassFacts = &fixture.classes[i];
            assert(classes[i as int] == facts@);
            names.push((owned(facts.image.as_str()), owned(facts.name.as_str())));
            known.push(describe(facts, &layouts[i]));
            note_image(&mut images, facts.image.as_str());
            assert(texts(images@) =~= loaded_images(classes, i + 1));
            i = i + 1;
        }
        Builder {
            metadata,
            heap: Region::new(HEAP_BASE),
            table: Some(Region::new(TABLE_BASE)),
            names,
            layouts,
            module: Module { runtime: owned("Mono V3, 64-bit"), images, classes: known },
            game_version: owned(fixture.game_version.as_str()),
            classes: Ghost(classes),
        }
    }

    /// The same world, with no table of references to be found in it.
    pub fn without_table(self) -> (builder: Self)
        requires
            self.wf(),
        ensures
            builder.wf(),
            builder@ == (BuilderView { table: None, ..self@ }),
    {
        let mut builder = self;
        builder.table = None;
        builder
    }

    /// Where a class ended up, or `None` if the fixture never mentioned it.
    pub fn class(&self, image: &str, name: &str) -> (layout: Option<ClassLayout>)
        requires
            self.wf(),
        ensures
            layout == self@.layout(image@, name@),
    {
        let mut n: usize = self.names.len();
        while n > 0
            invariant
                n <= self.names@.len(),
                self.wf(),
                class_at(self.classes@, image@, name@, self.classes@.len() as int) == class_at(
                    self.classes@,
                    image@,
                    name@,
                    n as int,
                ),
            decreases n,
        {
            let (a, b) = &self.names[n - 1];
            if same(a.as_str(), image) && same(b.as_str(), name) {
                return Some(self.layouts[n - 1]);
            }
            n = n - 1;
        }
        None
    }

    /// Same, where the class is known to be there.
    pub fn expect_class(&self, image: &str, name: &str) -> (layout: ClassLayout)
        requires
            self.wf(),
            self@.layout(image@, name@) is Some,
        ensures
            Some(layout) == self@.layout(image@, name@),
    {
        match self.class(image, name) {
            Some(layout) => layout,
            None => ClassLayout { class: 0, vtable: 0, static_table: None, instance_size: 0 },
        }
    }

    /// Places a zeroed instance of a class on the heap, with its vtable pointer
    /// set, and returns its address. The runtime holds a reference to it.
    ///
    /// `extra` reserves room past the fields the fixture knows about, for an
    /// object a test wants to write beyond them.
    pub fn new_object(&mut self, image: &str, name: &str, extra: u64) -> (address: u64)
        requires
            old(self).wf(),
            old(self)@.layout(image@, name@) is Some,
            (old(self)@.layout(image@, name@)->0).instance_size >= 8,
            old(self)@.has_room(
                (old(self)@.layout(image@, name@)->0).instance_size + extra,
            ),
            old(self)@.can_refer(),
        ensures
            final(self).wf(),
            address == old(self)@.next(),
            ({
                let layout = old(self)@.layout(image@, name@)->0;
                final(self)@ == old(self)@.with_object(
                    layout.vtable,
                    layout.instance_size + extra,
                ).referring(address)
            }),
    {
        let address = self.new_loose(image, name, extra);
        match &mut self.table {
            Some(table) => {
                let entry = table.reserve(8);
                table.write_u64(entry, address);
            },
            None => {},
        }
        address
    }

    /// Same, of an object that the runtime holds no reference to.
    pub fn new_loose(&mut self, image: &str, name: &str, extra: u64) -> (address: u64)
        requires
            old(self).wf(),
            old(self)@.layout(image@, name@) is Some,
            (old(self)@.layout(image@, name@)->0).instance_size >= 8,
            old(self)@.has_room(
                (old(self)@.layout(image@, name@)->0).instance_size + extra,
            ),
        ensures
            final(self).wf(),
            address == old(self)@.next(),
            ({
                let layout = old(self)@.layout(image@, name@)->0;
                final(self)@ == old(self)@.with_object(
                    layout.vtable,
                    layout.instance_size + extra,
                )
            }),
    {
        let layout = self.expect_class(image, name);
        let address = self.heap.reserve(layout.instance_size + extra);
        self.heap.write_u64(address, layout.vtable);
        address
    }

    /// How much is on the heap.
    pub fn heap_len(&self) -> (len: u64)
        ensures
            len == self@.heap.len(),
            len <= SPAN,
    {
        self.heap.len()
    }

    /// Reserves `len` zeroed bytes on the heap: an array's storage, a string,
    /// anything without a class of its own.
    pub fn reserve(&mut self, len: u64) -> (address: u64)
        requires
            old(self).wf(),
            old(self)@.has_room(len as int),
        ensures
            final(self).wf(),
            address == old(self)@.next(),
            final(self)@ == old(self)@.reserved(len as int),
    {
        self.heap.reserve(len)
    }

    /// Writes `bytes` over what is at `address`, on the heap or in the metadata.
    pub fn write(&mut self, address: u64, bytes: &[u8])
        requires
            old(self).wf(),
            old(self)@.holds(address, bytes@.len() as int),
        ensures
            final(self).wf(),
            final(self)@ == old(self)@.wrote(address, bytes@),
    {
        if HEAP_BASE <= address {
            self.heap.write(address, bytes);
        } else {
            self.metadata.write(address, bytes);
        }
    }

    pub fn write_u32(&mut self, address: u64, value: u32)
        requires
            old(self).wf(),
            old(self)@.holds(address, 4),
        ensures
            final(self).wf(),
            final(self)@ == old(self)@.wrote(address, spec_u32_to_le_bytes(value)),
    {
        if HEAP_BASE <= address {
            self.heap.write_u32(address, value);
        } else {
            self.metadata.write_u32(address, value);
        }
    }

    pub fn write_u64(&mut self, address: u64, value: u64)
        requires
            old(self).wf(),
            old(self)@.holds(address, 8),
        ensures
            final(self).wf(),
            final(self)@ == old(self)@.wrote(address, spec_u64_to_le_bytes(value)),
    {
        if HEAP_BASE <= address {
            self.heap.write_u64(address, value);
        } else {
            self.metadata.write_u64(address, value);
        }
    }

    /// The process, with its regions mapped and its runtime up.
    pub fn finish(self) -> (process: FakeProcess<SparseMemory>)
        requires
            self.wf(),
        ensures
            process.pid == PID,
            process.name@ == "Unity Main Thre"@,
            process.path matches Some(path) && path@ == "/synthetic/"@ + self@.game_version
                + "/Timberborn.exe"@,
            process.open,
            is_built(process.memory@, self@),
            process.ranges@ == ranges_of(process.memory@),
            are_loaded(process.modules@),
            process.runtime matches Some(module) && describes_all(
                module,
                self@.classes,
                self@.layouts,
            ),
    {
        let Builder { metadata, heap, table, names: _, layouts: _, module, game_version, classes: _ } =
            self;
        let mut path = owned("/synthetic/");
        path.append(game_version.as_str());
        path.append("/Timberborn.exe");
        let mut memory = SparseMemory::new();
        let mut ranges: Vec<MemoryRange> = Vec::new();
        let bytes = unity_player();
        let ghost unity: (u64, Seq<u8>) = (UNITY_BASE, bytes@);
        proof {
            assert(last_at(memory@, UNITY_BASE) == -1);
            assert(placed(memory@, UNITY_BASE, bytes@) =~= seq![unity]);
        }
        memory.put(UNITY_BASE, bytes);
        assert(memory@ == seq![unity]);
        let bytes = mono_module();
        let ghost mono: (u64, Seq<u8>) = (MONO_BASE, bytes@);
        proof {
            lemma_behind(memory@, MONO_BASE, bytes@);
            assert(memory@.push(mono) =~= seq![unity, mono]);
        }
        memory.put(MONO_BASE, bytes);
        ranges.push(MemoryRange { address: UNITY_BASE, size: PE_LEN as u64, flags: MODULE });
        ranges.push(MemoryRange { address: MONO_BASE, size: PE_LEN as u64, flags: MODULE });
        let bytes = metadata.into_bytes();
        let ghost one: (u64, Seq<u8>) = (METADATA_BASE, bytes@);
        ranges.push(MemoryRange { address: METADATA_BASE, size: bytes.len() as u64, flags: HEAP });
        proof {
            lemma_behind(memory@, METADATA_BASE, bytes@);
            assert(memory@.push(one) =~= seq![unity, mono, one]);
        }
        memory.put(METADATA_BASE, bytes);
        let bytes = pad(heap.into_bytes());
        let ghost two: (u64, Seq<u8>) = (HEAP_BASE, bytes@);
        ranges.push(MemoryRange { address: HEAP_BASE, size: bytes.len() as u64, flags: HEAP });
        proof {
            lemma_behind(memory@, HEAP_BASE, bytes@);
            assert(memory@.push(two) =~= seq![unity, mono, one, two]);
        }
        memory.put(HEAP_BASE, bytes);
        match table {
            Some(table) => {
                let bytes = pad(table.into_bytes());
                let ghost three: (u64, Seq<u8>) = (TABLE_BASE, bytes@);
                ranges.push(
                    MemoryRange { address: TABLE_BASE, size: bytes.len() as u64, flags: HEAP },
                );
                proof {
                    lemma_behind(memory@, TABLE_BASE, bytes@);
                    assert(memory@.push(three) =~= seq![unity, mono, one, two, three]);
                }
                memory.put(TABLE_BASE, bytes);
            },
            None => {},
        }
        proof {
            assert(memory@.skip(2) =~= blocks_of(self@));
            assert(ranges@ =~= ranges_of(memory@));
        }
        let mut modules: Vec<ModuleInfo> = Vec::new();
        modules.push(
            ModuleInfo {
                name: owned("UnityPlayer.dll"),
                address: UNITY_BASE,
                size: PE_LEN as u64,
                path: None,
            },
        );
        modules.push(
            ModuleInfo {
                name: owned("mono-2.0-bdwgc.dll"),
                address: MONO_BASE,
                size: PE_LEN as u64,
                path: None,
            },
        );
        FakeProcess {
            pid: PID,
            name: owned("Unity Main Thre"),
            path: Some(path),
            modules,
            ranges,
            memory,
            runtime: Some(module),
            open: true,
        }
    }
}

/// What is mapped in the process once it is built, behind the images. A heap
/// with nothing on it is still a heap: an empty block would make every read of it
/// fail rather than read a zero.
pub open spec fn blocks_of(view: BuilderView) -> Seq<(u64, Seq<u8>)> {
    let two = seq![(METADATA_BASE, view.metadata), (HEAP_BASE, padded(view.heap))];
    match view.table {
        Some(table) => two.push((TABLE_BASE, padded(table))),
        None => two,
    }
}

/// Whether that is what a process consists of: an image that says which Unity it
/// is, one that leads to the metadata, and what was built.
pub open spec fn is_built(blocks: Seq<(u64, Seq<u8>)>, view: BuilderView) -> bool {
    &&& blocks.len() >= 2
    &&& blocks[0].0 == UNITY_BASE
    &&& is_pe(blocks[0].1)
    &&& has_version(blocks[0].1, 6000, 3)
    &&& blocks[1].0 == MONO_BASE
    &&& is_pe(blocks[1].1)
    &&& leads_to(blocks[1].1, MONO_BASE, METADATA_BASE)
    &&& blocks.skip(2) == blocks_of(view)
}

/// The ranges that a process with those blocks reports.
pub open spec fn ranges_of(blocks: Seq<(u64, Seq<u8>)>) -> Seq<MemoryRange> {
    Seq::new(
        blocks.len(),
        |i: int|
            MemoryRange {
                address: blocks[i].0,
                size: blocks[i].1.len() as u64,
                flags: if i < 2 {
                    MODULE
                } else {
                    HEAP
                },
            },
    )
}

/// Whether the modules are the two images.
pub open spec fn are_loaded(modules: Seq<ModuleInfo>) -> bool {
    &&& modules.len() == 2
    &&& modules[0].name@ == "UnityPlayer.dll"@
    &&& modules[0].address == UNITY_BASE
    &&& modules[0].size == PE_LEN
    &&& modules[0].path is None
    &&& modules[1].name@ == "mono-2.0-bdwgc.dll"@
    &&& modules[1].address == MONO_BASE
    &&& modules[1].size == PE_LEN
    &&& modules[1].path is None
}

/// A block behind all others is placed behind them.
proof fn lemma_behind(blocks: Seq<(u64, Seq<u8>)>, address: u64, bytes: Seq<u8>)
    requires
        blocks.len() > 0,
        forall|i: int| 0 <= i < blocks.len() ==> (#[trigger] blocks[i]).0 < address,
    ensures
        placed(blocks, address, bytes) == blocks.push((address, bytes)),
{
}

/// What the runtime says of a class.
fn describe(facts: &ClassFacts, layout: &ClassLayout) -> (class: Class)
    ensures
        describes(class, facts@, *layout),
{
    let ghost views = field_views(facts.fields@);
    let mut fields: Vec<Field> = Vec::new();
    let mut i: usize = 0;
    assert(said_fields(fields@) =~= fields_of(views, 0));
    while i < facts.fields.len()
        invariant
            i <= facts.fields@.len(),
            views == field_views(facts.fields@),
            said_fields(fields@) == fields_of(views, i as int),
        decreases facts.fields@.len() - i,
    {
        let field: &FieldFacts = &facts.fields[i];
        let ghost before = said_fields(fields@);
        assert(views[i as int] == field@);
        fields.push(Field { name: owned(field.name.as_str()), offset: field.offset });
        let ghost known = before.push((field.name@, field.offset));
        assert(said_fields(fields@) =~= known);
        match &field.requested {
            Some(name) => {
                fields.push(Field { name: owned(name.as_str()), offset: field.offset });
                assert(said_fields(fields@) =~= known.push((name@, field.offset)));
            },
            None => {},
        }
        i = i + 1;
    }
    let nameless = is_empty(facts.image.as_str());
    let name = if nameless {
        let name = String::new();
        assert(name@ =~= Seq::<char>::empty());
        name
    } else {
        owned(facts.name.as_str())
    };
    Class {
        image: owned(facts.image.as_str()),
        name,
        vtable: Some(layout.vtable),
        static_table: layout.static_table,
        fields,
    }
}

fn is_empty(text: &str) -> (empty: bool)
    ensures
        empty == (text@.len() == 0),
{
    proof {
        reveal_strlit("");
        assert(""@ =~= Seq::<char>::empty());
    }
    let empty = same(text, "");
    assert(text@.len() == 0 ==> text@ =~= Seq::<char>::empty());
    empty
}

/// Adds an image to those known, where it has a name and is not among them.
fn note_image(images: &mut Vec<String>, image: &str)
    ensures
        texts(final(images)@) == if image@.len() == 0 || texts(old(images)@).contains(image@) {
            texts(old(images)@)
        } else {
            texts(old(images)@).push(image@)
        },
{
    let ghost before = texts(images@);
    if is_empty(image) {
        return ;
    }
    let mut k: usize = 0;
    while k < images.len()
        invariant
            k <= images@.len(),
            before == texts(images@),
            *images == *old(images),
            image@.len() > 0,
            forall|j: int| 0 <= j < k ==> #[trigger] before[j] != image@,
        decreases images@.len() - k,
    {
        assert(before[k as int] == images@[k as int]@);
        if same(images[k].as_str(), image) {
            assert(before[k as int] == image@);
            return ;
        }
        k = k + 1;
    }
    assert(!before.contains(image@));
    images.push(owned(image));
    assert(texts(images@) =~= before.push(image@));
}

} // verus!
