//! What the game's Mono runtime says about its classes, as plain values.
//!
//! Classes, vtables and field offsets are resolved by name from the runtime's
//! own metadata, outside this library. What comes back is held here: a class
//! that has not been constructed yet has no vtable, and a field that does not
//! resolve is not listed.
use vstd::prelude::*;

use crate::memory::{offset_by, plus, pointer_at, read_pointer_raw, Memory};
use crate::text::same;

verus! {

/// A field of a class, under the name it was asked for by.
pub struct Field {
    pub name: String,
    pub offset: u32,
}

/// A class as the runtime describes it.
pub struct Class {
    pub image: String,
    pub name: String,
    /// Filled in by the runtime once the class has been constructed.
    pub vtable: Option<u64>,
    /// Where the class's static fields are.
    pub static_table: Option<u64>,
    pub fields: Vec<Field>,
}

/// The classes resolved so far. A class known only through one of its objects,
/// as an inflated generic is, has an empty image and name.
pub struct Module {
    /// The runtime's version and pointer size, as it describes itself.
    pub runtime: String,
    /// The images that are loaded.
    pub images: Vec<String>,
    pub classes: Vec<Class>,
}

/// The offset of the first field called `name`.
pub open spec fn offset_of(fields: Seq<Field>, name: Seq<char>) -> Option<u32>
    decreases fields.len(),
{
    if fields.len() == 0 {
        None
    } else if fields[0].name@ == name {
        Some(fields[0].offset)
    } else {
        offset_of(fields.drop_first(), name)
    }
}

/// The first class of that image and name.
pub open spec fn class_named(classes: Seq<Class>, image: Seq<char>, name: Seq<char>) -> Option<
    Class,
>
    decreases classes.len(),
{
    if classes.len() == 0 {
        None
    } else if classes[0].image@ == image && classes[0].name@ == name {
        Some(classes[0])
    } else {
        class_named(classes.drop_first(), image, name)
    }
}

/// The first class whose vtable is `vtable`.
pub open spec fn class_with(classes: Seq<Class>, vtable: u64) -> Option<Class>
    decreases classes.len(),
{
    if classes.len() == 0 {
        None
    } else if classes[0].vtable == Some(vtable) {
        Some(classes[0])
    } else {
        class_with(classes.drop_first(), vtable)
    }
}

impl Class {
    /// Where `field` sits on an instance, or in the static table.
    pub open spec fn offset(self, field: Seq<char>) -> Option<u32> {
        offset_of(self.fields@, field)
    }

    /// Where the static `field` is in memory.
    pub open spec fn static_address(self, field: Seq<char>) -> Option<u64> {
        match (self.static_table, self.offset(field)) {
            (Some(table), Some(offset)) => Some(plus(table, offset as u64)),
            _ => None,
        }
    }

    /// The offset of a field, by name.
    pub fn get_field_offset(&self, field: &str) -> (offset: Option<u32>)
        ensures
            offset == self.offset(field@),
    {
        let mut i: usize = 0;
        assert(self.fields@.skip(0) =~= self.fields@);
        while i < self.fields.len()
            invariant
                i <= self.fields@.len(),
                offset_of(self.fields@, field@) == offset_of(self.fields@.skip(i as int), field@),
            decreases self.fields@.len() - i,
        {
            assert(self.fields@.skip(i as int).drop_first() =~= self.fields@.skip(i + 1));
            if same(self.fields[i].name.as_str(), field) {
                return Some(self.fields[i].offset);
            }
            i = i + 1;
        }
        None
    }

    /// Where a static field is, for values that live on the class rather than
    /// on an instance.
    pub fn get_static_field(&self, field: &str) -> (address: Option<u64>)
        ensures
            address == self.static_address(field@),
    {
        match (self.static_table, self.get_field_offset(field)) {
            (Some(table), Some(offset)) => Some(offset_by(table, offset as u64)),
            _ => None,
        }
    }
}

impl Module {
    pub open spec fn named(self, image: Seq<char>, name: Seq<char>) -> Option<Class> {
        class_named(self.classes@, image, name)
    }

    /// The class the object at `object` is an instance of, as its first word
    /// says.
    pub open spec fn class_of<M: Memory>(self, memory: &M, object: u64) -> Option<Class> {
        match pointer_at(memory, object) {
            Some(vtable) => class_with(self.classes@, vtable),
            None => None,
        }
    }

    pub open spec fn vtable(self, image: Seq<char>, name: Seq<char>) -> Option<u64> {
        match self.named(image, name) {
            Some(class) => class.vtable,
            None => None,
        }
    }

    pub open spec fn offset(self, image: Seq<char>, name: Seq<char>, field: Seq<char>) -> Option<
        u32,
    > {
        match self.named(image, name) {
            Some(class) => class.offset(field),
            None => None,
        }
    }

    pub open spec fn has_image(self, image: Seq<char>) -> bool {
        exists|i: int| 0 <= i < self.images@.len() && #[trigger] self.images@[i]@ == image
    }

    /// Whether an image is loaded.
    pub fn contains_image(&self, image: &str) -> (loaded: bool)
        ensures
            loaded == self.has_image(image@),
    {
        let mut i: usize = 0;
        while i < self.images.len()
            invariant
                i <= self.images@.len(),
                forall|k: int| 0 <= k < i ==> #[trigger] self.images@[k]@ != image@,
            decreases self.images@.len() - i,
        {
            if same(self.images[i].as_str(), image) {
                return true;
            }
            i = i + 1;
        }
        false
    }

    /// A class by the image and name it was resolved under.
    pub fn get_class(&self, image: &str, name: &str) -> (class: Option<&Class>)
        ensures
            class is Some <==> self.named(image@, name@) is Some,
            class is Some ==> *class->0 == self.named(image@, name@)->0,
    {
        let mut i: usize = 0;
        assert(self.classes@.skip(0) =~= self.classes@);
        while i < self.classes.len()
            invariant
                i <= self.classes@.len(),
                class_named(self.classes@, image@, name@) == class_named(
                    self.classes@.skip(i as int),
                    image@,
                    name@,
                ),
            decreases self.classes@.len() - i,
        {
            assert(self.classes@.skip(i as int).drop_first() =~= self.classes@.skip(i + 1));
            if same(self.classes[i].image.as_str(), image) && same(
                self.classes[i].name.as_str(),
                name,
            ) {
                return Some(&self.classes[i]);
            }
            i = i + 1;
        }
        None
    }

    /// The class of an object, by the vtable it starts with: for objects
    /// reached by dereference, whose class is discovered rather than named.
    pub fn of_object<M: Memory>(&self, memory: &M, object: u64) -> (class: Option<&Class>)
        ensures
            class is Some <==> self.class_of(memory, object) is Some,
            class is Some ==> *class->0 == self.class_of(memory, object)->0,
    {
        let vtable: u64 = match read_pointer_raw(memory, object) {
            Some(vtable) => vtable,
            None => {
                return None;
            },
        };
        let mut i: usize = 0;
        assert(self.classes@.skip(0) =~= self.classes@);
        while i < self.classes.len()
            invariant
                i <= self.classes@.len(),
                class_with(self.classes@, vtable) == class_with(
                    self.classes@.skip(i as int),
                    vtable,
                ),
                self.class_of(memory, object) == class_with(self.classes@, vtable),
            decreases self.classes@.len() - i,
        {
            assert(self.classes@.skip(i as int).drop_first() =~= self.classes@.skip(i + 1));
            if self.classes[i].vtable == Some(vtable) {
                return Some(&self.classes[i]);
            }
            i = i + 1;
        }
        None
    }
}

} // verus!
