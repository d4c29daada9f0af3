//! The metadata of a Mono runtime, in bytes.
//!
//! Only what is followed to reach a class and its fields by name: a handful of
//! pointer chases.
//!
//! ```text
//!   root ─► node[data,next] ─► assembly ─► image ─► bucket[] ─► class
//!                                 │ name                          │
//!                                 ▼                               │
//!                           "Timberborn.X"                        │
//!            name · namespace · fields[] · runtime info ─► vtable ┘
//! ```
//!
//! The offsets are those of a 64-bit Windows build of Unity 6, which is what
//! Timberborn is on both platforms it runs on. Structures are only as large as
//! the last field that is followed, and the bytes between fields are zero:
//! anything that is not followed cannot matter, and if that ever stops being
//! true, the read lands on a zero and fails loudly.
use vstd::bytes::{
    lemma_auto_spec_u32_to_from_le_bytes, lemma_auto_spec_u64_to_from_le_bytes,
    spec_u32_to_le_bytes, spec_u64_to_le_bytes,
};
use vstd::prelude::*;
use vstd::utf8::encode_utf8;

use crate::fixture::builder::{
    far, instance_size, static_size, ClassLayout, METADATA_BASE, OBJECT_HEADER, STATIC_SLOT,
    VTABLE_LEN, VTABLE_SIZE,
};
use crate::fixture::region::{
    aligned, half, lemma_grown, lemma_overwritten, text_at, word, Region, SPAN,
};
use crate::fixture::{class_views, ClassFacts, ClassView, FieldView, Fixture};
use crate::text::{owned, same};

verus! {

/// Where an assembly holds its name and its image, and how long it is.
pub const ASSEMBLY_NAME: u64 = 0x10;
pub const ASSEMBLY_IMAGE: u64 = 0x60;
pub const ASSEMBLY_LEN: u64 = 0x68;

/// Where an image holds the size of its class cache and the cache's buckets, and
/// how long it is.
pub const CACHE_SIZE: u64 = 0x4E8;
pub const CACHE_TABLE: u64 = 0x4F0;
pub const IMAGE_LEN: u64 = 0x4F8;

/// Where a class holds what is followed, and how long it is.
pub const CLASS_PARENT: u64 = 0x30;
pub const CLASS_IMAGE: u64 = 0x40;
pub const CLASS_NAME: u64 = 0x48;
pub const CLASS_NAMESPACE: u64 = 0x50;
pub const CLASS_VTABLE_SIZE: u64 = 0x5C;
pub const CLASS_FIELDS: u64 = 0x98;
pub const CLASS_RUNTIME_INFO: u64 = 0xD0;
pub const CLASS_FIELD_COUNT: u64 = 0x100;
pub const CLASS_NEXT: u64 = 0x108;
pub const CLASS_LEN: u64 = 0x110;

/// Where a field holds its name and its offset. The stride is what makes a field
/// array walkable.
pub const FIELD_NAME: u64 = 0x8;
pub const FIELD_OFFSET: u64 = 0x18;
pub const FIELD_STRIDE: u64 = 0x20;

/// A class's runtime info: a count, then one vtable per domain. The first is the
/// one that is taken.
pub const RUNTIME_INFO_LEN: u64 = 0x10;

/// How far into the metadata an address is.
pub open spec fn into(address: u64) -> int {
    address - METADATA_BASE
}

/// Whether `text` stands where `address` says, at `low` or beyond.
pub open spec fn is_named(bytes: Seq<u8>, low: int, address: u64, text: Seq<char>) -> bool {
    &&& low <= into(address)
    &&& text_at(bytes, into(address), encode_utf8(text))
}

/// Whether a field is the `i`th of an array.
pub open spec fn is_field(bytes: Seq<u8>, low: int, fields: int, i: int, field: FieldView) -> bool {
    let at = fields + FIELD_STRIDE * i;
    &&& low <= at
    &&& at + FIELD_STRIDE <= bytes.len()
    &&& is_named(bytes, low, word(bytes, at + FIELD_NAME), field.name)
    &&& half(bytes, at + FIELD_OFFSET) == field.offset
}

/// Whether a class is where its layout says, with everything that can be reached
/// from it at `low` or beyond.
///
/// It has no parent: a fixture records the flattened view, so nothing is
/// inherited and a walk up the chain ends here. It is alone in its bucket.
pub open spec fn is_class(
    bytes: Seq<u8>,
    low: int,
    layout: ClassLayout,
    class: ClassView,
    image: u64,
) -> bool {
    let at = into(layout.class);
    let info = into(word(bytes, at + CLASS_RUNTIME_INFO));
    let vtable = into(layout.vtable);
    &&& low <= at
    &&& at + CLASS_LEN <= bytes.len()
    &&& is_named(bytes, low, word(bytes, at + CLASS_NAME), class.name)
    &&& is_named(bytes, low, word(bytes, at + CLASS_NAMESPACE), class.namespace)
    &&& word(bytes, at + CLASS_IMAGE) == image
    &&& word(bytes, at + CLASS_PARENT) == 0
    &&& word(bytes, at + CLASS_NEXT) == 0
    &&& half(bytes, at + CLASS_VTABLE_SIZE) == VTABLE_SIZE
    &&& half(bytes, at + CLASS_FIELD_COUNT) == class.fields.len()
    &&& forall|i: int|
        0 <= i < class.fields.len() ==> is_field(
            bytes,
            low,
            into(word(bytes, at + CLASS_FIELDS)),
            i,
            #[trigger] class.fields[i],
        )
    &&& low <= info
    &&& info + RUNTIME_INFO_LEN <= bytes.len()
    &&& word(bytes, info + 8) == layout.vtable
    &&& low <= vtable
    &&& vtable + VTABLE_LEN <= bytes.len()
    &&& word(bytes, vtable) == layout.class
    &&& layout.static_table matches Some(table) ==> word(bytes, vtable + STATIC_SLOT) == table
}

/// Whether a layout lies within `len` bytes of metadata, and is as large as its
/// class needs.
pub open spec fn fits(len: nat, layout: ClassLayout, class: ClassView) -> bool {
    &&& layout.instance_size == instance_size(class)
    &&& METADATA_BASE <= layout.class
    &&& into(layout.class) + CLASS_LEN <= len
    &&& METADATA_BASE <= layout.vtable
    &&& into(layout.vtable) + VTABLE_LEN <= len
    &&& match layout.static_table {
        Some(table) => {
            &&& static_size(class) > 0
            &&& METADATA_BASE <= table
            &&& into(table) + static_size(class) <= len
        },
        None => static_size(class) == 0,
    }
}

/// Nothing from `low` on differs, as far as `a` goes.
pub open spec fn keeps(a: Seq<u8>, b: Seq<u8>, low: int) -> bool {
    &&& a.len() <= b.len()
    &&& forall|i: int| low <= i < a.len() ==> #[trigger] b[i] == a[i]
}

proof fn lemma_keeps(a: Seq<u8>, b: Seq<u8>, low: int)
    requires
        keeps(a, b, low),
        0 <= low,
    ensures
        forall|at: int| low <= at && at + 8 <= a.len() ==> #[trigger] word(b, at) == word(a, at),
        forall|at: int| low <= at && at + 4 <= a.len() ==> #[trigger] half(b, at) == half(a, at),
        forall|at: int, text: Seq<u8>|
            low <= at && text_at(a, at, text) ==> #[trigger] text_at(b, at, text),
{
    assert forall|at: int| low <= at && at + 8 <= a.len() implies #[trigger] word(b, at) == word(
        a,
        at,
    ) by {
        assert(b.subrange(at, at + 8) =~= a.subrange(at, at + 8));
    }
    assert forall|at: int| low <= at && at + 4 <= a.len() implies #[trigger] half(b, at) == half(
        a,
        at,
    ) by {
        assert(b.subrange(at, at + 4) =~= a.subrange(at, at + 4));
    }
    assert forall|at: int, text: Seq<u8>|
        low <= at && text_at(a, at, text) implies #[trigger] text_at(b, at, text) by {
        assert(b.subrange(at, at + text.len()) =~= a.subrange(at, at + text.len()));
    }
}

/// A class stays where it is as long as nothing from `low` on is touched.
proof fn lemma_class_kept(
    a: Seq<u8>,
    b: Seq<u8>,
    low: int,
    layout: ClassLayout,
    class: ClassView,
    image: u64,
)
    requires
        keeps(a, b, low),
        0 <= low,
        is_class(a, low, layout, class, image),
    ensures
        is_class(b, low, layout, class, image),
{
    lemma_keeps(a, b, low);
    let fields = into(word(a, into(layout.class) + CLASS_FIELDS));
    assert forall|i: int| 0 <= i < class.fields.len() implies is_field(
        b,
        low,
        fields,
        i,
        #[trigger] class.fields[i],
    ) by {
        assert(is_field(a, low, fields, i, class.fields[i]));
    }
}

/// The texts placed so far, each once. Mono interns its names.
struct Names {
    known: Vec<(String, u64)>,
}

impl Names {
    /// Whether every text is where it is said to be.
    spec fn hold(self, bytes: Seq<u8>, low: int) -> bool {
        forall|i: int|
            0 <= i < self.known@.len() ==> is_named(
                bytes,
                low,
                (#[trigger] self.known@[i]).1,
                self.known@[i].0@,
            )
    }

    /// Whether a text is among them.
    spec fn knows(self, text: Seq<char>) -> bool {
        exists|i: int| 0 <= i < self.known@.len() && (#[trigger] self.known@[i]).0@ == text
    }

    proof fn lemma_kept(self, a: Seq<u8>, b: Seq<u8>, low: int)
        requires
            keeps(a, b, low),
            0 <= low,
            self.hold(a, low),
        ensures
            self.hold(b, low),
    {
        lemma_keeps(a, b, low);
        assert forall|i: int| 0 <= i < self.known@.len() implies is_named(
            b,
            low,
            (#[trigger] self.known@[i]).1,
            self.known@[i].0@,
        ) by {
            assert(is_named(a, low, self.known@[i].1, self.known@[i].0@));
        }
    }

    /// Places a text with a zero behind it and returns its address, or that of
    /// the same text where it was placed before.
    fn place(&mut self, metadata: &mut Region, text: &str, Ghost(low): Ghost<int>) -> (address: u64)
        requires
            old(metadata).base() == METADATA_BASE,
            old(self).hold(old(metadata)@, low),
            0 <= low <= old(metadata)@.len(),
            old(metadata)@.len() + text_room(text@) <= SPAN,
        ensures
            final(metadata).base() == METADATA_BASE,
            final(self).hold(final(metadata)@, low),
            final(self).knows(text@),
            is_named(final(metadata)@, low, address, text@),
            old(self).knows(text@) ==> final(metadata)@ == old(metadata)@,
            keeps(old(metadata)@, final(metadata)@, 0),
            final(metadata)@.len() <= old(metadata)@.len() + text_room(text@),
    {
        let ghost before = metadata@;
        let mut i: usize = 0;
        while i < self.known.len()
            invariant
                i <= self.known@.len(),
                *self == *old(self),
                *metadata == *old(metadata),
                before == metadata@,
                metadata.base() == METADATA_BASE,
                self.hold(before, low),
                forall|k: int| 0 <= k < i ==> (#[trigger] self.known@[k]).0@ != text@,
            decreases self.known@.len() - i,
        {
            if same(self.known[i].0.as_str(), text) {
                assert(is_named(before, low, self.known@[i as int].1, self.known@[i as int].0@));
                return self.known[i].1;
            }
            i = i + 1;
        }
        let bytes = text.as_bytes();
        let ghost utf8 = encode_utf8(text@);
        assert(bytes@ == utf8);
        proof {
            lemma_grown(before, utf8.len() as int + 1);
        }
        let address = metadata.reserve(bytes.len() as u64 + 1);
        let ghost wide = metadata@;
        metadata.write(address, bytes);
        proof {
            lemma_overwritten(wide, into(address), utf8);
            let at = into(address);
            assert(metadata@[at + utf8.len()] == wide[at + utf8.len()]);
            assert(metadata@.subrange(at, at + utf8.len()) =~= utf8);
            assert forall|i: int| 0 <= i < before.len() implies #[trigger] metadata@[i]
                == before[i] by {
                assert(wide.take(before.len() as int)[i] == before.take(before.len() as int)[i]);
            }
            self.lemma_kept(before, metadata@, low);
        }
        let ghost had = self.known@;
        self.known.push((owned(text), address));
        proof {
            assert forall|i: int| 0 <= i < self.known@.len() implies is_named(
                metadata@,
                low,
                (#[trigger] self.known@[i]).1,
                self.known@[i].0@,
            ) by {
                if i < had.len() {
                    assert(self.known@[i] == had[i]);
                }
            }
            assert(self.known@[had.len() as int].0@ == text@);
        }
        address
    }
}

/// How much room a text takes, at most.
pub open spec fn text_room(text: Seq<char>) -> nat {
    encode_utf8(text).len() + 8
}

/// How much room the names of the first `n` fields take, at most.
pub open spec fn names_room(fields: Seq<FieldView>, n: int) -> nat
    decreases n,
{
    if n <= 0 {
        0
    } else {
        names_room(fields, n - 1) + text_room(fields[n - 1].name)
    }
}

/// How long a class is with all that only it has: its fields, its runtime info,
/// its vtable and its static table.
pub open spec fn class_len(class: ClassView) -> nat {
    (CLASS_LEN + FIELD_STRIDE * class.fields.len() + RUNTIME_INFO_LEN + VTABLE_LEN) as nat
        + static_size(class)
}

/// How much room a class takes, at most.
pub open spec fn class_room(class: ClassView) -> nat {
    text_room(class.name) + text_room(class.namespace) + names_room(
        class.fields,
        class.fields.len() as int,
    ) + class_len(class) + 8
}

proof fn lemma_names_room(fields: Seq<FieldView>, n: int, m: int)
    requires
        n <= m,
    ensures
        names_room(fields, n) <= names_room(fields, m),
    decreases m - n,
{
    if n < m && m > 0 {
        lemma_names_room(fields, n, m - 1);
    }
}

/// Places the names of a class's fields.
fn place_names(
    metadata: &mut Region,
    names: &mut Names,
    facts: &ClassFacts,
    Ghost(low): Ghost<int>,
) -> (places: Vec<u64>)
    requires
        old(metadata).base() == METADATA_BASE,
        old(names).hold(old(metadata)@, low),
        0 <= low <= old(metadata)@.len(),
        old(metadata)@.len() + names_room(facts@.fields, facts.fields@.len() as int) <= SPAN,
    ensures
        final(metadata).base() == METADATA_BASE,
        final(names).hold(final(metadata)@, low),
        keeps(old(metadata)@, final(metadata)@, 0),
        final(metadata)@.len() <= old(metadata)@.len() + names_room(
            facts@.fields,
            facts.fields@.len() as int,
        ),
        places@.len() == facts.fields@.len(),
        forall|i: int|
            0 <= i < places@.len() ==> is_named(
                final(metadata)@,
                low,
                #[trigger] places@[i],
                facts@.fields[i].name,
            ),
{
    let ghost before = metadata@;
    let ghost fields = facts@.fields;
    let mut places: Vec<u64> = Vec::new();
    let mut i: usize = 0;
    while i < facts.fields.len()
        invariant
            i <= facts.fields@.len(),
            fields == facts@.fields,
            before.len() + names_room(fields, fields.len() as int) <= SPAN,
            metadata.base() == METADATA_BASE,
            names.hold(metadata@, low),
            0 <= low <= before.len(),
            keeps(before, metadata@, 0),
            metadata@.len() <= before.len() + names_room(fields, i as int),
            places@.len() == i,
            forall|k: int|
                0 <= k < i ==> is_named(metadata@, low, #[trigger] places@[k], fields[k].name),
        decreases facts.fields@.len() - i,
    {
        proof {
            assert(fields[i as int] == facts.fields@[i as int]@);
            lemma_names_room(fields, i + 1, fields.len() as int);
        }
        let ghost had = metadata@;
        let ghost were = places@;
        let place = names.place(metadata, facts.fields[i].name.as_str(), Ghost(low));
        places.push(place);
        proof {
            lemma_keeps(had, metadata@, 0);
            assert forall|k: int| 0 <= k < i + 1 implies is_named(
                metadata@,
                low,
                #[trigger] places@[k],
                fields[k].name,
            ) by {
                if k < i {
                    assert(is_named(had, low, were[k], fields[k].name));
                }
            }
        }
        i = i + 1;
    }
    places
}

/// Writes a word, and says what is where after that.
fn put_word(metadata: &mut Region, address: u64, value: u64)
    requires
        old(metadata).base() == METADATA_BASE,
        METADATA_BASE <= address,
        into(address) + 8 <= old(metadata)@.len(),
    ensures
        final(metadata).base() == METADATA_BASE,
        final(metadata)@.len() == old(metadata)@.len(),
        word(final(metadata)@, into(address)) == value,
        forall|i: int|
            0 <= i < old(metadata)@.len() && !(into(address) <= i < into(address) + 8)
                ==> #[trigger] final(metadata)@[i] == old(metadata)@[i],
        forall|o: int|
            0 <= o && o + 8 <= old(metadata)@.len() && (o + 8 <= into(address) || into(address) + 8
                <= o) ==> #[trigger] word(final(metadata)@, o) == word(old(metadata)@, o),
        forall|o: int|
            0 <= o && o + 4 <= old(metadata)@.len() && (o + 4 <= into(address) || into(address) + 8
                <= o) ==> #[trigger] half(final(metadata)@, o) == half(old(metadata)@, o),
{
    let ghost before = metadata@;
    metadata.write_u64(address, value);
    proof {
        lemma_auto_spec_u64_to_from_le_bytes();
        lemma_overwritten(before, into(address), spec_u64_to_le_bytes(value));
    }
}

/// Writes a 32-bit word, and says what is where after that.
fn put_half(metadata: &mut Region, address: u64, value: u32)
    requires
        old(metadata).base() == METADATA_BASE,
        METADATA_BASE <= address,
        into(address) + 4 <= old(metadata)@.len(),
    ensures
        final(metadata).base() == METADATA_BASE,
        final(metadata)@.len() == old(metadata)@.len(),
        half(final(metadata)@, into(address)) == value,
        forall|i: int|
            0 <= i < old(metadata)@.len() && !(into(address) <= i < into(address) + 4)
                ==> #[trigger] final(metadata)@[i] == old(metadata)@[i],
        forall|o: int|
            0 <= o && o + 8 <= old(metadata)@.len() && (o + 8 <= into(address) || into(address) + 4
                <= o) ==> #[trigger] word(final(metadata)@, o) == word(old(metadata)@, o),
        forall|o: int|
            0 <= o && o + 4 <= old(metadata)@.len() && (o + 4 <= into(address) || into(address) + 4
                <= o) ==> #[trigger] half(final(metadata)@, o) == half(old(metadata)@, o),
{
    let ghost before = metadata@;
    metadata.write_u32(address, value);
    proof {
        lemma_auto_spec_u32_to_from_le_bytes();
        lemma_overwritten(before, into(address), spec_u32_to_le_bytes(value));
    }
}

/// Writes a class's fields, whose names were placed in front of them.
fn put_fields(metadata: &mut Region, at: u64, facts: &ClassFacts, places: &Vec<u64>)
    requires
        old(metadata).base() == METADATA_BASE,
        METADATA_BASE <= at,
        into(at) + FIELD_STRIDE * facts.fields@.len() <= old(metadata)@.len(),
        old(metadata)@.len() <= SPAN,
        places@.len() == facts.fields@.len(),
    ensures
        final(metadata).base() == METADATA_BASE,
        final(metadata)@.len() == old(metadata)@.len(),
        forall|i: int|
            0 <= i < old(metadata)@.len() && !(into(at) <= i < into(at) + FIELD_STRIDE
                * facts.fields@.len()) ==> #[trigger] final(metadata)@[i] == old(metadata)@[i],
        forall|k: int|
            0 <= k < places@.len() ==> word(
                final(metadata)@,
                into(at) + FIELD_STRIDE * k + FIELD_NAME,
            ) == #[trigger] places@[k],
        forall|k: int|
            0 <= k < places@.len() ==> half(
                final(metadata)@,
                into(at) + FIELD_STRIDE * k + FIELD_OFFSET,
            ) == (#[trigger] facts@.fields[k]).offset,
{
    let ghost before = metadata@;
    let ghost fields = facts@.fields;
    let ghost n = facts.fields@.len();
    let mut i: usize = 0;
    while i < facts.fields.len()
        invariant
            i <= facts.fields@.len(),
            fields == facts@.fields,
            n == facts.fields@.len(),
            places@.len() == n,
            metadata.base() == METADATA_BASE,
            metadata@.len() == before.len(),
            before.len() <= SPAN,
            METADATA_BASE <= at,
            into(at) + FIELD_STRIDE * n <= before.len(),
            forall|k: int|
                0 <= k < before.len() && !(into(at) <= k < into(at) + FIELD_STRIDE * i)
                    ==> #[trigger] metadata@[k] == before[k],
            forall|k: int|
                0 <= k < i ==> word(metadata@, into(at) + FIELD_STRIDE * k + FIELD_NAME)
                    == #[trigger] places@[k],
            forall|k: int|
                0 <= k < i ==> half(metadata@, into(at) + FIELD_STRIDE * k + FIELD_OFFSET) == (
                #[trigger] fields[k]).offset,
        decreases facts.fields@.len() - i,
    {
        let entry: u64 = at + FIELD_STRIDE * i as u64;
        let ghost had = metadata@;
        assert(fields[i as int] == facts.fields@[i as int]@);
        put_word(metadata, entry + FIELD_NAME, places[i]);
        put_half(metadata, entry + FIELD_OFFSET, facts.fields[i].offset);
        proof {
            assert forall|k: int| 0 <= k < i + 1 implies word(
                metadata@,
                into(at) + FIELD_STRIDE * k + FIELD_NAME,
            ) == #[trigger] places@[k] by {
                if k < i {
                    assert(into(at) + FIELD_STRIDE * k + FIELD_STRIDE <= into(entry));
                    assert(word(had, into(at) + FIELD_STRIDE * k + FIELD_NAME) == places@[k]);
                }
            }
            assert forall|k: int| 0 <= k < i + 1 implies half(
                metadata@,
                into(at) + FIELD_STRIDE * k + FIELD_OFFSET,
            ) == (#[trigger] fields[k]).offset by {
                if k < i {
                    assert(into(at) + FIELD_STRIDE * k + FIELD_STRIDE <= into(entry));
                    assert(half(had, into(at) + FIELD_STRIDE * k + FIELD_OFFSET) == fields[k].offset);
                }
            }
        }
        i = i + 1;
    }
}

/// Writes what a class itself holds.
fn put_class(
    metadata: &mut Region,
    class: u64,
    name: u64,
    namespace: u64,
    image: u64,
    count: u32,
    fields: u64,
    info: u64,
)
    requires
        old(metadata).base() == METADATA_BASE,
        METADATA_BASE <= class,
        into(class) + CLASS_LEN <= old(metadata)@.len(),
        old(metadata)@.len() <= SPAN,
    ensures
        final(metadata).base() == METADATA_BASE,
        final(metadata)@.len() == old(metadata)@.len(),
        forall|i: int|
            0 <= i < old(metadata)@.len() && !(into(class) <= i < into(class) + CLASS_LEN)
                ==> #[trigger] final(metadata)@[i] == old(metadata)@[i],
        ({
            let bytes = final(metadata)@;
            let at = into(class);
            &&& word(bytes, at + CLASS_NAME) == name
            &&& word(bytes, at + CLASS_NAMESPACE) == namespace
            &&& word(bytes, at + CLASS_IMAGE) == image
            &&& word(bytes, at + CLASS_PARENT) == 0
            &&& word(bytes, at + CLASS_NEXT) == 0
            &&& half(bytes, at + CLASS_VTABLE_SIZE) == VTABLE_SIZE
            &&& half(bytes, at + CLASS_FIELD_COUNT) == count
            &&& word(bytes, at + CLASS_FIELDS) == fields
            &&& word(bytes, at + CLASS_RUNTIME_INFO) == info
        }),
{
    put_word(metadata, class + CLASS_PARENT, 0);
    put_word(metadata, class + CLASS_IMAGE, image);
    put_word(metadata, class + CLASS_NAME, name);
    put_word(metadata, class + CLASS_NAMESPACE, namespace);
    put_half(metadata, class + CLASS_VTABLE_SIZE, VTABLE_SIZE as u32);
    put_word(metadata, class + CLASS_FIELDS, fields);
    put_word(metadata, class + CLASS_RUNTIME_INFO, info);
    put_half(metadata, class + CLASS_FIELD_COUNT, count);
    put_word(metadata, class + CLASS_NEXT, 0);
}

/// Writes what leads from a class to its vtable and back, and from the vtable to
/// the static table.
fn put_vtable(metadata: &mut Region, info: u64, vtable: u64, class: u64, table: Option<u64>)
    requires
        old(metadata).base() == METADATA_BASE,
        METADATA_BASE <= info,
        info + RUNTIME_INFO_LEN == vtable,
        into(vtable) + VTABLE_LEN <= old(metadata)@.len(),
        old(metadata)@.len() <= SPAN,
    ensures
        final(metadata).base() == METADATA_BASE,
        final(metadata)@.len() == old(metadata)@.len(),
        forall|i: int|
            0 <= i < old(metadata)@.len() && !(into(info) <= i < into(vtable) + VTABLE_LEN)
                ==> #[trigger] final(metadata)@[i] == old(metadata)@[i],
        word(final(metadata)@, into(info) + 8) == vtable,
        word(final(metadata)@, into(vtable)) == class,
        table matches Some(t) ==> word(final(metadata)@, into(vtable) + STATIC_SLOT) == t,
{
    put_word(metadata, info + 8, vtable);
    put_word(metadata, vtable, class);
    if let Some(table) = table {
        put_word(metadata, vtable + STATIC_SLOT, table);
    }
}

proof fn lemma_outside(a: Seq<u8>, b: Seq<u8>, from: int, to: int)
    requires
        a.len() == b.len(),
        forall|i: int| 0 <= i < a.len() && !(from <= i < to) ==> #[trigger] b[i] == a[i],
    ensures
        forall|o: int|
            0 <= o && o + 8 <= a.len() && (o + 8 <= from || to <= o) ==> #[trigger] word(b, o)
                == word(a, o),
        forall|o: int|
            0 <= o && o + 4 <= a.len() && (o + 4 <= from || to <= o) ==> #[trigger] half(b, o)
                == half(a, o),
{
    assert forall|o: int|
        0 <= o && o + 8 <= a.len() && (o + 8 <= from || to <= o) implies #[trigger] word(b, o)
        == word(a, o) by {
        assert(b.subrange(o, o + 8) =~= a.subrange(o, o + 8));
    }
    assert forall|o: int|
        0 <= o && o + 4 <= a.len() && (o + 4 <= from || to <= o) implies #[trigger] half(b, o)
        == half(a, o) by {
        assert(b.subrange(o, o + 4) =~= a.subrange(o, o + 4));
    }
}

/// One class: its names, then its fields, its runtime info, its vtable, and its
/// static table where it has static fields.
///
/// The vtable is followed by its function slots and the pointer to the static
/// table, which is why a static table is found by skipping as many pointers as
/// the class says. It begins with its class, which is what turns an object back
/// into the class it is an instance of.
fn lay_out_class(
    metadata: &mut Region,
    names: &mut Names,
    facts: &ClassFacts,
    image: u64,
    Ghost(low): Ghost<int>,
) -> (layout: ClassLayout)
    requires
        old(metadata).base() == METADATA_BASE,
        old(names).hold(old(metadata)@, low),
        0 <= low <= old(metadata)@.len(),
        old(metadata)@.len() + class_room(facts@) <= SPAN,
    ensures
        final(metadata).base() == METADATA_BASE,
        final(names).hold(final(metadata)@, low),
        keeps(old(metadata)@, final(metadata)@, 0),
        final(metadata)@.len() <= old(metadata)@.len() + class_room(facts@),
        is_class(final(metadata)@, low, layout, facts@, image),
        fits(final(metadata)@.len(), layout, facts@),
        layout.vtable >= METADATA_BASE + old(metadata)@.len(),
{
    let ghost before = metadata@;
    let ghost class_view = facts@;
    let name = names.place(metadata, facts.name.as_str(), Ghost(low));
    let ghost one = metadata@;
    let namespace = names.place(metadata, facts.namespace.as_str(), Ghost(low));
    let ghost two = metadata@;
    let places = place_names(metadata, names, facts, Ghost(low));
    let ghost named = metadata@;
    let static_len = far(&facts.fields, true);
    proof {
        lemma_keeps(one, named, 0);
        lemma_keeps(two, named, 0);
        lemma_grown(named, class_len(class_view) as int);
        assert(class_view.fields.len() == facts.fields@.len());
    }
    let count: usize = facts.fields.len();
    let fields_len: u64 = FIELD_STRIDE * count as u64;
    let class = metadata.reserve(
        CLASS_LEN + fields_len + RUNTIME_INFO_LEN + VTABLE_LEN + static_len,
    );
    let fields: u64 = class + CLASS_LEN;
    let info: u64 = fields + fields_len;
    let vtable: u64 = info + RUNTIME_INFO_LEN;
    let ghost wide = metadata@;
    proof {
        assert forall|i: int| 0 <= i < named.len() implies #[trigger] wide[i] == named[i] by {
            assert(wide.take(named.len() as int)[i] == named.take(named.len() as int)[i]);
        }
    }
    put_fields(metadata, fields, facts, &places);
    let ghost filled = metadata@;
    put_class(metadata, class, name, namespace, image, count as u32, fields, info);
    let ghost headed = metadata@;
    let static_table: Option<u64> = if static_len == 0 {
        None
    } else {
        Some(vtable + VTABLE_LEN)
    };
    put_vtable(metadata, info, vtable, class, static_table);
    let reach = far(&facts.fields, false);
    let instance_size: u64 = if reach > OBJECT_HEADER {
        reach
    } else {
        OBJECT_HEADER
    };
    let layout = ClassLayout { class, vtable, static_table, instance_size };
    proof {
        let after = metadata@;
        assert forall|i: int| 0 <= i < named.len() implies #[trigger] after[i] == named[i] by {
            assert(headed[i] == filled[i]);
            assert(filled[i] == wide[i]);
            assert(wide[i] == named[i]);
        }
        assert(keeps(named, after, 0));
        lemma_keeps(named, after, 0);
        names.lemma_kept(named, after, low);
        lemma_outside(filled, headed, into(class), into(fields));
        lemma_outside(headed, after, into(info), into(vtable) + VTABLE_LEN);
        assert forall|i: int| 0 <= i < class_view.fields.len() implies is_field(
            after,
            low,
            into(fields),
            i,
            #[trigger] class_view.fields[i],
        ) by {
            let at = into(fields) + FIELD_STRIDE * i;
            assert(at + FIELD_STRIDE <= into(info));
            assert(is_named(named, low, places@[i], class_view.fields[i].name));
            assert(word(after, at + FIELD_NAME) == word(filled, at + FIELD_NAME));
            assert(half(after, at + FIELD_OFFSET) == half(filled, at + FIELD_OFFSET));
        }
    }
    layout
}

/// The images of the first `n` classes, each once, in order.
pub open spec fn images_of(classes: Seq<ClassView>, n: int) -> Seq<Seq<char>>
    decreases n,
{
    if n <= 0 {
        Seq::empty()
    } else {
        let before = images_of(classes, n - 1);
        if before.contains(classes[n - 1].image) {
            before
        } else {
            before.push(classes[n - 1].image)
        }
    }
}

/// Which of the first `n` classes are of an image, in order.
pub open spec fn members(classes: Seq<ClassView>, image: Seq<char>, n: int) -> Seq<int>
    decreases n,
{
    if n <= 0 {
        Seq::empty()
    } else if classes[n - 1].image == image {
        members(classes, image, n - 1).push(n - 1)
    } else {
        members(classes, image, n - 1)
    }
}

/// Where the `i`th node of the list of assemblies is. The list begins right
/// behind its root, which is the first thing in the metadata: the runtime's code
/// leads there, and everything else could move.
pub open spec fn node_at(i: int) -> int {
    8 + 0x10 * i
}

/// Where the `i`th of `n` assemblies is.
pub open spec fn assembly_at(n: int, i: int) -> int {
    8 + 0x10 * n + ASSEMBLY_LEN * i
}

/// Where the image of the `i`th of `n` assemblies is.
pub open spec fn image_at(n: int, i: int) -> int {
    8 + 0x78 * n + IMAGE_LEN * i
}

/// How long the list of `n` assemblies is, with its root, assemblies and images.
pub open spec fn list_len(n: int) -> int {
    8 + 0x570 * n
}

/// The address of what is `at` into the metadata.
pub open spec fn address_of(at: int) -> u64 {
    (METADATA_BASE + at) as u64
}

/// The image a class belongs to.
pub open spec fn image_of(images: Seq<Seq<char>>, class: ClassView) -> u64 {
    address_of(image_at(images.len() as int, images.index_of(class.image)))
}

/// Whether the `i`th assembly is in the list, has its name, and leads to its
/// classes: one in each bucket, in order.
pub open spec fn is_assembly(
    bytes: Seq<u8>,
    images: Seq<Seq<char>>,
    i: int,
    classes: Seq<ClassView>,
    layouts: Seq<ClassLayout>,
) -> bool {
    let n = images.len() as int;
    let low = list_len(n);
    let of = members(classes, images[i], classes.len() as int);
    let buckets = into(word(bytes, image_at(n, i) + CACHE_TABLE));
    &&& word(bytes, node_at(i)) == address_of(assembly_at(n, i))
    &&& word(bytes, node_at(i) + 8) == if i + 1 < n {
        address_of(node_at(i + 1))
    } else {
        0
    }
    &&& is_named(bytes, low, word(bytes, assembly_at(n, i) + ASSEMBLY_NAME), images[i])
    &&& word(bytes, assembly_at(n, i) + ASSEMBLY_IMAGE) == address_of(image_at(n, i))
    &&& half(bytes, image_at(n, i) + CACHE_SIZE) == of.len()
    &&& low <= buckets
    &&& buckets + 8 * of.len() <= bytes.len()
    &&& forall|j: int|
        0 <= j < of.len() ==> word(bytes, buckets + 8 * j) == layouts[#[trigger] of[j]].class
}

/// Whether the metadata is that of the classes.
pub open spec fn is_metadata(
    bytes: Seq<u8>,
    classes: Seq<ClassView>,
    layouts: Seq<ClassLayout>,
) -> bool {
    let images = images_of(classes, classes.len() as int);
    &&& layouts.len() == classes.len()
    &&& list_len(images.len() as int) <= bytes.len()
    &&& word(bytes, 0) == if images.len() == 0 {
        0
    } else {
        address_of(node_at(0))
    }
    &&& forall|i: int|
        0 <= i < images.len() ==> #[trigger] is_assembly(bytes, images, i, classes, layouts)
    &&& forall|k: int|
        0 <= k < classes.len() ==> is_class(
            bytes,
            list_len(images.len() as int),
            #[trigger] layouts[k],
            classes[k],
            image_of(images, classes[k]),
        )
}

/// How much room the first `n` classes take, at most.
pub open spec fn classes_room(classes: Seq<ClassView>, n: int) -> nat
    decreases n,
{
    if n <= 0 {
        0
    } else {
        classes_room(classes, n - 1) + class_room(classes[n - 1])
    }
}

/// How much room the names and buckets of the first `n` images take, at most.
pub open spec fn images_room(classes: Seq<ClassView>, images: Seq<Seq<char>>, n: int) -> nat
    decreases n,
{
    if n <= 0 {
        0
    } else {
        images_room(classes, images, n - 1) + text_room(images[n - 1]) + 8 * members(
            classes,
            images[n - 1],
            classes.len() as int,
        ).len() + 8
    }
}

/// How much room the metadata of the classes takes, at most.
pub open spec fn room_for(classes: Seq<ClassView>) -> int {
    let images = images_of(classes, classes.len() as int);
    list_len(images.len() as int) + classes_room(classes, classes.len() as int) + images_room(
        classes,
        images,
        images.len() as int,
    )
}

proof fn lemma_classes_room(classes: Seq<ClassView>, n: int, m: int)
    requires
        n <= m,
    ensures
        classes_room(classes, n) <= classes_room(classes, m),
    decreases m - n,
{
    if n < m && m > 0 {
        lemma_classes_room(classes, n, m - 1);
    }
}

proof fn lemma_images_room(classes: Seq<ClassView>, images: Seq<Seq<char>>, n: int, m: int)
    requires
        n <= m,
    ensures
        images_room(classes, images, n) <= images_room(classes, images, m),
    decreases m - n,
{
    if n < m && m > 0 {
        lemma_images_room(classes, images, n, m - 1);
    }
}

/// The images of the first `n` classes are among all, and every class's is.
proof fn lemma_images(classes: Seq<ClassView>, n: int, k: int)
    requires
        0 <= k < n <= classes.len(),
    ensures
        images_of(classes, n).contains(classes[k].image),
    decreases n,
{
    let before = images_of(classes, n - 1);
    if k == n - 1 {
        if !before.contains(classes[k].image) {
            assert(images_of(classes, n)[before.len() as int] == classes[k].image);
        }
    } else {
        lemma_images(classes, n - 1, k);
        let j = before.index_of(classes[k].image);
        assert(images_of(classes, n)[j] == before[j]);
    }
}

proof fn lemma_images_differ(classes: Seq<ClassView>, n: int)
    requires
        0 <= n <= classes.len(),
    ensures
        images_of(classes, n).no_duplicates(),
    decreases n,
{
    if n > 0 {
        lemma_images_differ(classes, n - 1);
        let before = images_of(classes, n - 1);
        if !before.contains(classes[n - 1].image) {
            let after = before.push(classes[n - 1].image);
            assert forall|i: int, j: int|
                0 <= i < after.len() && 0 <= j < after.len() && i != j implies after[i]
                != after[j] by {
                if i == before.len() {
                    assert(before.contains(before[j]));
                } else if j == before.len() {
                    assert(before.contains(before[i]));
                }
            }
        }
    }
}

proof fn lemma_members(classes: Seq<ClassView>, image: Seq<char>, n: int)
    requires
        n <= classes.len(),
    ensures
        members(classes, image, n).len() <= if n < 0 { 0 } else { n },
        forall|j: int|
            0 <= j < members(classes, image, n).len() ==> 0 <= #[trigger] members(
                classes,
                image,
                n,
            )[j] < n,
    decreases n,
{
    if n > 0 {
        lemma_members(classes, image, n - 1);
    }
}

/// What texts say.
pub open spec fn texts(strings: Seq<String>) -> Seq<Seq<char>> {
    strings.map_values(|s: String| s@)
}

/// Where a text is among others; their number where it is not.
fn index_in(texts: &Vec<String>, text: &str) -> (index: usize)
    ensures
        index <= texts@.len(),
        index == texts@.len() <==> !self::texts(texts@).contains(text@),
        forall|j: int| 0 <= j < index ==> (#[trigger] texts@[j])@ != text@,
        index < texts@.len() ==> texts@[index as int]@ == text@,
{
    let mut i: usize = 0;
    while i < texts.len()
        invariant
            i <= texts@.len(),
            forall|j: int| 0 <= j < i ==> (#[trigger] texts@[j])@ != text@,
        decreases texts@.len() - i,
    {
        if same(texts[i].as_str(), text) {
            assert(self::texts(texts@)[i as int] == text@);
            return i;
        }
        i = i + 1;
    }
    assert(!self::texts(texts@).contains(text@)) by {
        if self::texts(texts@).contains(text@) {
            let j = self::texts(texts@).index_of(text@);
            assert(texts@[j]@ == text@);
        }
    }
    i
}

/// The images of a fixture's classes, each once, in order, so that a walk of the
/// world and the fixture agree.
fn gather_images(fixture: &Fixture) -> (images: Vec<String>)
    ensures
        texts(images@) == images_of(class_views(fixture.classes@), fixture.classes@.len() as int),
        images@.len() <= fixture.classes@.len(),
{
    let ghost classes = class_views(fixture.classes@);
    let mut images: Vec<String> = Vec::new();
    let mut i: usize = 0;
    assert(texts(images@) =~= images_of(classes, 0));
    while i < fixture.classes.len()
        invariant
            i <= fixture.classes@.len(),
            classes == class_views(fixture.classes@),
            texts(images@) == images_of(classes, i as int),
            images@.len() <= i,
        decreases fixture.classes@.len() - i,
    {
        let image = fixture.classes[i].image.as_str();
        let ghost before = texts(images@);
        assert(classes[i as int].image == image@);
        if index_in(&images, image) == images.len() {
            images.push(owned(image));
            assert(texts(images@) =~= before.push(image@));
        }
        i = i + 1;
    }
    images
}

/// The classes of an image, by their place.
fn gather_members(fixture: &Fixture, image: &str) -> (found: Vec<usize>)
    ensures
        found@.map_values(|k: usize| k as int) == members(
            class_views(fixture.classes@),
            image@,
            fixture.classes@.len() as int,
        ),
{
    let ghost classes = class_views(fixture.classes@);
    let mut found: Vec<usize> = Vec::new();
    let mut i: usize = 0;
    assert(found@.map_values(|k: usize| k as int) =~= members(classes, image@, 0));
    while i < fixture.classes.len()
        invariant
            i <= fixture.classes@.len(),
            classes == class_views(fixture.classes@),
            found@.map_values(|k: usize| k as int) == members(classes, image@, i as int),
        decreases fixture.classes@.len() - i,
    {
        let ghost before = found@.map_values(|k: usize| k as int);
        assert(classes[i as int].image == fixture.classes@[i as int].image@);
        if same(fixture.classes[i].image.as_str(), image) {
            found.push(i);
            assert(found@.map_values(|k: usize| k as int) =~= before.push(i as int));
        }
        i = i + 1;
    }
    found
}

/// Whether a place in the list belongs to the `i`th of `n` assemblies.
spec fn is_of(n: int, i: int, at: int) -> bool {
    ||| node_at(i) <= at < node_at(i) + 0x10
    ||| assembly_at(n, i) <= at < assembly_at(n, i) + ASSEMBLY_LEN
    ||| image_at(n, i) <= at < image_at(n, i) + IMAGE_LEN
}

/// Writes what the list says of the `i`th of `n` assemblies.
fn put_assembly(metadata: &mut Region, n: usize, i: usize, name: u64, buckets: u64, count: u32)
    requires
        old(metadata).base() == METADATA_BASE,
        i < n,
        list_len(n as int) <= old(metadata)@.len() <= SPAN,
    ensures
        final(metadata).base() == METADATA_BASE,
        final(metadata)@.len() == old(metadata)@.len(),
        forall|at: int|
            0 <= at < old(metadata)@.len() && !is_of(n as int, i as int, at)
                ==> #[trigger] final(metadata)@[at] == old(metadata)@[at],
        ({
            let bytes = final(metadata)@;
            let (n, i) = (n as int, i as int);
            &&& word(bytes, node_at(i)) == address_of(assembly_at(n, i))
            &&& word(bytes, node_at(i) + 8) == if i + 1 < n {
                address_of(node_at(i + 1))
            } else {
                0
            }
            &&& word(bytes, assembly_at(n, i) + ASSEMBLY_NAME) == name
            &&& word(bytes, assembly_at(n, i) + ASSEMBLY_IMAGE) == address_of(image_at(n, i))
            &&& half(bytes, image_at(n, i) + CACHE_SIZE) == count
            &&& word(bytes, image_at(n, i) + CACHE_TABLE) == buckets
        }),
{
    let node: u64 = METADATA_BASE + 8 + 0x10 * i as u64;
    let assembly: u64 = METADATA_BASE + 8 + 0x10 * n as u64 + ASSEMBLY_LEN * i as u64;
    let image: u64 = METADATA_BASE + 8 + 0x78 * n as u64 + IMAGE_LEN * i as u64;
    proof {
        assert(into(node) == node_at(i as int));
        assert(into(assembly) == assembly_at(n as int, i as int));
        assert(into(image) == image_at(n as int, i as int));
        assert(node_at(i as int) + 0x10 <= assembly_at(n as int, i as int));
        assert(assembly_at(n as int, i as int) + ASSEMBLY_LEN <= image_at(n as int, i as int));
        assert(image_at(n as int, i as int) + IMAGE_LEN <= list_len(n as int));
    }
    put_word(metadata, node, assembly);
    let next: u64 = if i + 1 < n {
        node + 0x10
    } else {
        0
    };
    put_word(metadata, node + 8, next);
    put_word(metadata, assembly + ASSEMBLY_NAME, name);
    put_word(metadata, assembly + ASSEMBLY_IMAGE, image);
    put_half(metadata, image + CACHE_SIZE, count);
    put_word(metadata, image + CACHE_TABLE, buckets);
}

/// Writes one class into each bucket.
fn put_buckets(metadata: &mut Region, at: u64, of: &Vec<usize>, layouts: &Vec<ClassLayout>)
    requires
        old(metadata).base() == METADATA_BASE,
        METADATA_BASE <= at,
        into(at) + 8 * of@.len() <= old(metadata)@.len() <= SPAN,
        forall|j: int| 0 <= j < of@.len() ==> #[trigger] of@[j] < layouts@.len(),
    ensures
        final(metadata).base() == METADATA_BASE,
        final(metadata)@.len() == old(metadata)@.len(),
        forall|i: int|
            0 <= i < old(metadata)@.len() && !(into(at) <= i < into(at) + 8 * of@.len())
                ==> #[trigger] final(metadata)@[i] == old(metadata)@[i],
        forall|j: int|
            0 <= j < of@.len() ==> word(final(metadata)@, into(at) + 8 * j)
                == layouts@[#[trigger] of@[j] as int].class,
{
    let ghost before = metadata@;
    let mut j: usize = 0;
    while j < of.len()
        invariant
            j <= of@.len(),
            metadata.base() == METADATA_BASE,
            metadata@.len() == before.len(),
            before.len() <= SPAN,
            METADATA_BASE <= at,
            into(at) + 8 * of@.len() <= before.len(),
            forall|k: int| 0 <= k < of@.len() ==> #[trigger] of@[k] < layouts@.len(),
            forall|i: int|
                0 <= i < before.len() && !(into(at) <= i < into(at) + 8 * of@.len())
                    ==> #[trigger] metadata@[i] == before[i],
            forall|k: int|
                0 <= k < j ==> word(metadata@, into(at) + 8 * k)
                    == layouts@[#[trigger] of@[k] as int].class,
        decreases of@.len() - j,
    {
        let ghost had = metadata@;
        let bucket: u64 = at + 8 * j as u64;
        put_word(metadata, bucket, layouts[of[j]].class);
        proof {
            assert forall|k: int| 0 <= k < j + 1 implies word(metadata@, into(at) + 8 * k)
                == layouts@[#[trigger] of@[k] as int].class by {
                if k < j {
                    assert(into(at) + 8 * k + 8 <= into(bucket));
                    assert(word(metadata@, into(at) + 8 * k) == word(had, into(at) + 8 * k));
                }
            }
        }
        j = j + 1;
    }
}

/// An assembly stays in the list as long as neither its own part of the list nor
/// anything behind the list is touched.
proof fn lemma_assembly_kept(
    a: Seq<u8>,
    b: Seq<u8>,
    images: Seq<Seq<char>>,
    i: int,
    classes: Seq<ClassView>,
    layouts: Seq<ClassLayout>,
)
    requires
        0 <= i < images.len(),
        list_len(images.len() as int) <= a.len(),
        keeps(a, b, list_len(images.len() as int)),
        forall|at: int|
            0 <= at < a.len() && is_of(images.len() as int, i, at) ==> #[trigger] b[at] == a[at],
        is_assembly(a, images, i, classes, layouts),
    ensures
        is_assembly(b, images, i, classes, layouts),
{
    let n = images.len() as int;
    let low = list_len(n);
    lemma_keeps(a, b, low);
    assert(node_at(i) + 0x10 <= assembly_at(n, i));
    assert(assembly_at(n, i) + ASSEMBLY_LEN <= image_at(n, i));
    assert(image_at(n, i) + IMAGE_LEN <= low);
    lemma_same_word(a, b, node_at(i));
    lemma_same_word(a, b, node_at(i) + 8);
    lemma_same_word(a, b, assembly_at(n, i) + ASSEMBLY_NAME);
    lemma_same_word(a, b, assembly_at(n, i) + ASSEMBLY_IMAGE);
    lemma_same_word(a, b, image_at(n, i) + CACHE_TABLE);
    let size = image_at(n, i) + CACHE_SIZE;
    assert(b.subrange(size, size + 4) =~= a.subrange(size, size + 4));
    let of = members(classes, images[i], classes.len() as int);
    let buckets = into(word(a, image_at(n, i) + CACHE_TABLE));
    assert forall|j: int| 0 <= j < of.len() implies word(b, buckets + 8 * j)
        == layouts[#[trigger] of[j]].class by {
        assert(word(b, buckets + 8 * j) == word(a, buckets + 8 * j));
    }
}

proof fn lemma_same_word(a: Seq<u8>, b: Seq<u8>, at: int)
    requires
        0 <= at,
        at + 8 <= a.len(),
        at + 8 <= b.len(),
        forall|i: int| at <= i < at + 8 ==> #[trigger] b[i] == a[i],
    ensures
        word(b, at) == word(a, at),
{
    assert(b.subrange(at, at + 8) =~= a.subrange(at, at + 8));
}

/// Whether every one of the first `n` classes is where its layout says.
spec fn are_classes(
    bytes: Seq<u8>,
    images: Seq<Seq<char>>,
    classes: Seq<ClassView>,
    layouts: Seq<ClassLayout>,
    n: int,
) -> bool {
    forall|k: int|
        0 <= k < n ==> is_class(
            bytes,
            list_len(images.len() as int),
            #[trigger] layouts[k],
            classes[k],
            image_of(images, classes[k]),
        )
}

proof fn lemma_classes_kept(
    a: Seq<u8>,
    b: Seq<u8>,
    images: Seq<Seq<char>>,
    classes: Seq<ClassView>,
    layouts: Seq<ClassLayout>,
    n: int,
)
    requires
        keeps(a, b, list_len(images.len() as int)),
        are_classes(a, images, classes, layouts, n),
    ensures
        are_classes(b, images, classes, layouts, n),
{
    let low = list_len(images.len() as int);
    assert forall|k: int| 0 <= k < n implies is_class(
        b,
        low,
        #[trigger] layouts[k],
        classes[k],
        image_of(images, classes[k]),
    ) by {
        lemma_class_kept(a, b, low, layouts[k], classes[k], image_of(images, classes[k]));
    }
}

/// No two vtables overlap, so that each tells its class from every other.
pub open spec fn are_distinct(layouts: Seq<ClassLayout>) -> bool {
    forall|i: int, j: int|
        0 <= i < j < layouts.len() ==> (#[trigger] layouts[i]).vtable + VTABLE_LEN <= (
        #[trigger] layouts[j]).vtable
}

/// Lays out every class, behind the list of assemblies.
fn lay_out_classes(
    metadata: &mut Region,
    names: &mut Names,
    fixture: &Fixture,
    images: &Vec<String>,
) -> (layouts: Vec<ClassLayout>)
    requires
        old(metadata).base() == METADATA_BASE,
        old(metadata)@.len() == list_len(images@.len() as int),
        old(names).hold(old(metadata)@, list_len(images@.len() as int)),
        texts(images@) == images_of(
            class_views(fixture.classes@),
            fixture.classes@.len() as int,
        ),
        list_len(images@.len() as int) + classes_room(
            class_views(fixture.classes@),
            fixture.classes@.len() as int,
        ) <= SPAN,
    ensures
        final(metadata).base() == METADATA_BASE,
        final(names).hold(final(metadata)@, list_len(images@.len() as int)),
        final(metadata)@.len() >= list_len(images@.len() as int),
        final(metadata)@.len() <= list_len(images@.len() as int) + classes_room(
            class_views(fixture.classes@),
            fixture.classes@.len() as int,
        ),
        layouts@.len() == fixture.classes@.len(),
        are_classes(
            final(metadata)@,
            texts(images@),
            class_views(fixture.classes@),
            layouts@,
            layouts@.len() as int,
        ),
        forall|k: int|
            0 <= k < layouts@.len() ==> fits(
                final(metadata)@.len(),
                #[trigger] layouts@[k],
                fixture.classes@[k]@,
            ),
        are_distinct(layouts@),
{
    let ghost classes = class_views(fixture.classes@);
    let ghost all = texts(images@);
    let ghost low = list_len(images@.len() as int);
    let mut layouts: Vec<ClassLayout> = Vec::new();
    let mut k: usize = 0;
    while k < fixture.classes.len()
        invariant
            k <= fixture.classes@.len(),
            classes == class_views(fixture.classes@),
            all == texts(images@),
            all == images_of(classes, classes.len() as int),
            low == list_len(images@.len() as int),
            low + classes_room(classes, classes.len() as int) <= SPAN,
            metadata.base() == METADATA_BASE,
            low <= metadata@.len() <= low + classes_room(classes, k as int),
            names.hold(metadata@, low),
            layouts@.len() == k,
            are_classes(metadata@, all, classes, layouts@, k as int),
            forall|j: int|
                0 <= j < k ==> fits(metadata@.len(), #[trigger] layouts@[j], classes[j]),
            are_distinct(layouts@),
        decreases fixture.classes@.len() - k,
    {
        let facts: &ClassFacts = &fixture.classes[k];
        proof {
            assert(classes[k as int] == facts@);
            lemma_classes_room(classes, k + 1, classes.len() as int);
            lemma_images(classes, classes.len() as int, k as int);
            lemma_images_differ(classes, classes.len() as int);
        }
        let index: usize = index_in(images, facts.image.as_str());
        proof {
            let j = all.index_of(facts.image@);
            assert(all[index as int] == images@[index as int]@);
            assert(j == index);
            assert(list_len(all.len() as int) <= SPAN);
        }
        let image: u64 = METADATA_BASE + 8 + 0x78 * images.len() as u64 + IMAGE_LEN * index as u64;
        assert(image == image_of(all, classes[k as int]));
        let ghost before = metadata@;
        let ghost had = layouts@;
        let layout = lay_out_class(metadata, names, facts, image, Ghost(low));
        layouts.push(layout);
        proof {
            assert(keeps(before, metadata@, low));
            lemma_classes_kept(before, metadata@, all, classes, had, k as int);
            assert forall|j: int| 0 <= j < k + 1 implies is_class(
                metadata@,
                low,
                #[trigger] layouts@[j],
                classes[j],
                image_of(all, classes[j]),
            ) by {
                if j < k {
                    assert(layouts@[j] == had[j]);
                }
            }
            assert forall|j: int| 0 <= j < k + 1 implies fits(
                metadata@.len(),
                #[trigger] layouts@[j],
                classes[j],
            ) by {
                if j < k {
                    assert(layouts@[j] == had[j]);
                }
            }
            assert forall|a: int, b: int| 0 <= a < b < layouts@.len() implies (
            #[trigger] layouts@[a]).vtable + VTABLE_LEN <= (#[trigger] layouts@[b]).vtable by {
                assert(layouts@[a] == had[a]);
                if b < k {
                    assert(layouts@[b] == had[b]);
                } else {
                    assert(fits(before.len(), had[a], classes[a]));
                }
            }
        }
        k = k + 1;
    }
    layouts
}

/// Lays out everything that leads to the classes of a fixture, and the classes.
pub(crate) fn lay_out(fixture: &Fixture) -> (result: (Region, Vec<ClassLayout>))
    requires
        room_for(class_views(fixture.classes@)) <= SPAN,
    ensures
        result.0.base() == METADATA_BASE,
        is_metadata(result.0@, class_views(fixture.classes@), result.1@),
        forall|k: int|
            0 <= k < result.1@.len() ==> fits(
                result.0@.len(),
                #[trigger] result.1@[k],
                fixture.classes@[k]@,
            ),
        are_distinct(result.1@),
{
    let ghost classes = class_views(fixture.classes@);
    let images = gather_images(fixture);
    let ghost all = texts(images@);
    let n: usize = images.len();
    let ghost low = list_len(n as int);
    let ghost room = low + classes_room(classes, classes.len() as int);
    let mut metadata = Region::new(METADATA_BASE);
    assert(aligned(0) == 0);
    let root = metadata.reserve(8 + 0x570 * n as u64);
    let mut names = Names { known: Vec::new() };
    let layouts = lay_out_classes(&mut metadata, &mut names, fixture, &images);
    let first: u64 = if n == 0 {
        0
    } else {
        root + 8
    };
    let ghost laid = metadata@;
    put_word(&mut metadata, root, first);
    proof {
        lemma_classes_kept(laid, metadata@, all, classes, layouts@, layouts@.len() as int);
        names.lemma_kept(laid, metadata@, low);
    }
    let mut i: usize = 0;
    while i < n
        invariant
            i <= n,
            n == images@.len(),
            classes == class_views(fixture.classes@),
            all == texts(images@),
            all == images_of(classes, classes.len() as int),
            low == list_len(n as int),
            room == low + classes_room(classes, classes.len() as int),
            room + images_room(classes, all, n as int) <= SPAN,
            metadata.base() == METADATA_BASE,
            low <= metadata@.len() <= room + images_room(classes, all, i as int),
            laid.len() <= metadata@.len(),
            names.hold(metadata@, low),
            layouts@.len() == classes.len(),
            are_classes(metadata@, all, classes, layouts@, layouts@.len() as int),
            word(metadata@, 0) == first,
            forall|j: int|
                0 <= j < i ==> #[trigger] is_assembly(metadata@, all, j, classes, layouts@),
        decreases n - i,
    {
        proof {
            assert(all[i as int] == images@[i as int]@);
            lemma_images_room(classes, all, i + 1, n as int);
            lemma_members(classes, all[i as int], classes.len() as int);
        }
        let ghost of = members(classes, all[i as int], classes.len() as int);
        let ghost before = metadata@;
        let name = names.place(&mut metadata, images[i].as_str(), Ghost(low));
        let ghost named = metadata@;
        let found = gather_members(fixture, images[i].as_str());
        let ghost places = found@.map_values(|k: usize| k as int);
        assert(places == of);
        assert forall|j: int| 0 <= j < found@.len() implies #[trigger] found@[j] < layouts@.len() by {
            assert(places[j] == found@[j] as int);
        }
        proof {
            assert(found@.len() == of.len());
            lemma_grown(named, 8 * found@.len() as int);
        }
        let buckets = metadata.reserve(8 * found.len() as u64);
        let ghost wide = metadata@;
        put_buckets(&mut metadata, buckets, &found, &layouts);
        let ghost filled = metadata@;
        put_assembly(&mut metadata, n, i, name, buckets, found.len() as u32);
        proof {
            let after = metadata@;
            assert forall|at: int| 0 <= at < named.len() implies #[trigger] filled[at] == named[at] by {
                assert(wide.take(named.len() as int)[at] == named.take(named.len() as int)[at]);
                assert(filled[at] == wide[at]);
            }
            assert forall|at: int| low <= at < filled.len() implies #[trigger] after[at]
                == filled[at] by {
                assert(!is_of(n as int, i as int, at));
            }
            assert forall|at: int| low <= at < named.len() implies #[trigger] after[at]
                == named[at] by {
                assert(filled[at] == named[at]);
            }
            assert(keeps(named, after, low));
            assert(keeps(filled, after, low));
            assert forall|at: int| low <= at < before.len() implies #[trigger] after[at]
                == before[at] by {
                assert(named[at] == before[at]);
            }
            assert(keeps(before, after, low));
            lemma_classes_kept(before, after, all, classes, layouts@, layouts@.len() as int);
            names.lemma_kept(named, after, low);
            lemma_keeps(named, after, low);
            lemma_keeps(filled, after, low);
            assert forall|j: int| 0 <= j < i + 1 implies #[trigger] is_assembly(
                after,
                all,
                j,
                classes,
                layouts@,
            ) by {
                if j < i {
                    assert(is_assembly(before, all, j, classes, layouts@));
                    assert forall|at: int|
                        0 <= at < before.len() && is_of(n as int, j, at) implies #[trigger] after[at]
                        == before[at] by {
                        lemma_apart(n as int, i as int, j, at);
                        assert(filled[at] == named[at]);
                        assert(named[at] == before[at]);
                    }
                    lemma_assembly_kept(before, after, all, j, classes, layouts@);
                } else {
                    assert forall|b: int| 0 <= b < of.len() implies word(
                        after,
                        into(buckets) + 8 * b,
                    ) == layouts@[#[trigger] of[b]].class by {
                        assert(places[b] == found@[b] as int);
                        assert(word(filled, into(buckets) + 8 * b) == layouts@[found@[b] as int].class);
                    }
                }
            }
            assert forall|at: int| 0 <= at < 8 implies #[trigger] after[at] == before[at] by {
                assert(!is_of(n as int, i as int, at));
                assert(filled[at] == named[at]);
                assert(named[at] == before[at]);
            }
            lemma_same_word(before, after, 0);
        }
        i = i + 1;
    }
    assert(first == if all.len() == 0 { 0 } else { address_of(node_at(0)) });
    (metadata, layouts)
}

/// The parts of the list that two assemblies have do not overlap.
proof fn lemma_apart(n: int, i: int, j: int, at: int)
    requires
        0 <= j < i < n,
        is_of(n, j, at),
    ensures
        !is_of(n, i, at),
{
    assert(node_at(j) + 0x10 <= node_at(i));
    assert(node_at(i) + 0x10 <= assembly_at(n, 0));
    assert(assembly_at(n, 0) <= assembly_at(n, j));
    assert(assembly_at(n, j) + ASSEMBLY_LEN <= assembly_at(n, i));
    assert(assembly_at(n, i) + ASSEMBLY_LEN <= image_at(n, 0));
    assert(image_at(n, 0) <= image_at(n, j));
    assert(image_at(n, j) + IMAGE_LEN <= image_at(n, i));
}

} // verus!
