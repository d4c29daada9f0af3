//! Locating game services and reading fields off them.
//!
//! Wraps the raw scan in [`crate::scan`] with the two things every split needs:
//! resolving a class by name, and validating that a match is a real instance.
//!
//! Nearly every Timberborn service holds an `_eventBus` pointing at the single
//! `EventBus`, which makes one shared validation target work for all of them.
use vstd::prelude::*;

use crate::memory::{
    i32_at, offset_by, plus, pointer_at, read_i32, read_pointer_raw, Memory, MemoryRange,
};
use crate::metadata::Module;
use crate::note::{Note, Why};
use crate::scan::{scannable, surveyed, Quarry, Scan, Tally, Validator};

verus! {

/// What a search turned up.
pub struct Found {
    /// Instances that passed validation.
    pub instances: Vec<u64>,
    /// Whether an empty result actually means "not present". Never true for a
    /// search through the reference table, which can only say "not among the
    /// objects the runtime is holding a reference to".
    pub conclusive: bool,
    /// Ranges holding a pointer to the anchor a sweep was asked to notice in
    /// passing, for identifying the reference table off the back of a sweep
    /// that was happening anyway. Empty unless one was asked for.
    pub table_candidates: Vec<(u64, u64)>,
}

impl Found {
    /// The first instance, for the singleton case.
    pub open spec fn first(self) -> Option<u64> {
        if self.instances@.len() > 0 {
            Some(self.instances@[0])
        } else {
            None
        }
    }

    /// The first instance, for the singleton case.
    pub fn one(&self) -> (instance: Option<u64>)
        ensures
            instance == self.first(),
    {
        if self.instances.len() > 0 {
            Some(self.instances[0])
        } else {
            None
        }
    }
}

/// Resolves a class's vtable, for use as a validation target.
///
/// Returns `None` until the class has been constructed at least once, since
/// Mono fills in a vtable lazily.
pub fn class_vtable(module: &Module, image_name: &str, class_name: &str) -> (vtable: Option<u64>)
    ensures
        vtable == module.vtable(image_name@, class_name@),
{
    match module.get_class(image_name, class_name) {
        Some(class) => class.vtable,
        None => None,
    }
}

/// The vtable of the class that `_eventBus` fields point at.
pub open spec fn bus_vtable(module: Module) -> Option<u64> {
    module.vtable("Timberborn.SingletonSystem"@, "EventBus"@)
}

/// Resolves the shared validation target used by most services.
pub fn event_bus_vtable(module: &Module) -> (vtable: Option<u64>)
    ensures
        vtable == bus_vtable(*module),
{
    class_vtable(module, "Timberborn.SingletonSystem", "EventBus")
}

/// Where a static field is, as the metadata says.
pub open spec fn static_in(
    module: Module,
    image: Seq<char>,
    class: Seq<char>,
    field: Seq<char>,
) -> Option<u64> {
    match module.named(image, class) {
        Some(class) => class.static_address(field),
        None => None,
    }
}

/// Address of a static field, without needing an instance.
///
/// Classes like `WorldDataService` are not DI services and have no `_eventBus`,
/// yet their statics are perfectly readable.
pub fn static_field(module: &Module, image_name: &str, class_name: &str, field: &str) -> (address:
    Option<u64>)
    ensures
        address == static_in(*module, image_name@, class_name@, field@),
{
    match module.get_class(image_name, class_name) {
        Some(class) => class.get_static_field(field),
        None => None,
    }
}

/// The length of the .NET string that the reference at `reference` leads to.
pub open spec fn referenced_len<M: Memory>(memory: &M, reference: u64) -> Option<i32> {
    match pointer_at(memory, reference) {
        Some(pointer) => i32_at(memory, plus(pointer, 0x10)),
        None => None,
    }
}

/// Length of a .NET string, or `None` if the reference is null.
///
/// `MonoString` is a 16-byte object header, then an `i32` length, then UTF-16
/// characters. Only the length is needed to tell "set" from "unset".
pub fn string_len<M: Memory>(memory: &M, reference: u64) -> (len: Option<i32>)
    ensures
        len == referenced_len(memory, reference),
{
    match read_pointer_raw(memory, reference) {
        Some(pointer) => read_i32(memory, offset_by(pointer, 0x10)),
        None => None,
    }
}

/// Offset of a named field on a class named at compile time.
///
/// For classes we never need to locate an instance of -- the offset comes from
/// metadata, so it resolves whether or not one has ever been constructed.
pub fn field_offset(module: &Module, image_name: &str, class_name: &str, field: &str) -> (offset:
    Option<u32>)
    ensures
        offset == module.offset(image_name@, class_name@, field@),
{
    match module.get_class(image_name, class_name) {
        Some(class) => class.get_field_offset(field),
        None => None,
    }
}

/// Where a field is on the object at `object`, as its own class says.
pub open spec fn offset_on<M: Memory>(
    memory: &M,
    module: Module,
    object: u64,
    field: Seq<char>,
) -> Option<u32> {
    match module.class_of(memory, object) {
        Some(class) => class.offset(field),
        None => None,
    }
}

/// Offset of a named field on an object whose class is discovered at runtime.
///
/// For objects reached by dereference rather than by scanning, where there is
/// no need to build a [`Locatable`] for the class.
pub fn field_of<M: Memory>(memory: &M, module: &Module, object: u64, field: &str) -> (offset:
    Option<u32>)
    ensures
        offset == offset_on(memory, *module, object, field@),
{
    match module.of_object(memory, object) {
        Some(class) => class.get_field_offset(field),
        None => None,
    }
}

/// A class whose instances we can find in memory.
#[derive(Clone, Copy)]
pub struct Locatable {
    pub image: &'static str,
    pub name: &'static str,
    pub vtable: u64,
    pub validator: Validator,
}

/// A class as it can be located, once it has a vtable and a field to validate
/// it by.
pub open spec fn locatable(
    module: Module,
    image: &'static str,
    name: &'static str,
    field: Seq<char>,
    expected_vtable: u64,
) -> Option<Locatable> {
    match (module.vtable(image@, name@), module.offset(image@, name@, field)) {
        (Some(vtable), Some(field_offset)) => Some(
            Locatable { image, name, vtable, validator: Validator { field_offset, expected_vtable } },
        ),
        _ => None,
    }
}

/// A class located through its `_eventBus`.
pub open spec fn service(
    module: Module,
    image: &'static str,
    name: &'static str,
    event_bus_vtable: u64,
) -> Option<Locatable> {
    locatable(module, image, name, "_eventBus"@, event_bus_vtable)
}

impl Locatable {
    /// Resolves a class and the validator for it.
    ///
    /// Returns `None` until the class has been instantiated at least once,
    /// since Mono only fills in a vtable at that point. For a class that only
    /// exists in a loaded game, that absence is itself meaningful.
    pub fn new(
        module: &Module,
        image_name: &'static str,
        class_name: &'static str,
        event_bus_vtable: u64,
    ) -> (class: Option<Self>)
        ensures
            class == service(*module, image_name, class_name, event_bus_vtable),
    {
        Self::with_validator(module, image_name, class_name, "_eventBus", event_bus_vtable)
    }

    /// As [`new`](Self::new), but validating through a different field.
    ///
    /// Classes that are not DI services have no `_eventBus`.
    pub fn with_validator(
        module: &Module,
        image_name: &'static str,
        class_name: &'static str,
        validation_field: &str,
        expected_vtable: u64,
    ) -> (class: Option<Self>)
        ensures
            class == locatable(
                *module,
                image_name,
                class_name,
                validation_field@,
                expected_vtable,
            ),
    {
        let vtable = class_vtable(module, image_name, class_name);
        let offset = field_offset(module, image_name, class_name, validation_field);
        match (vtable, offset) {
            (Some(vtable), Some(field_offset)) => Some(
                Locatable {
                    image: image_name,
                    name: class_name,
                    vtable,
                    validator: Validator { field_offset, expected_vtable },
                },
            ),
            _ => None,
        }
    }

    pub fn name(&self) -> (name: &'static str)
        ensures
            name == self.name,
    {
        self.name
    }

    /// The class's vtable, which is what identifies one of its instances in a
    /// heap scan or in the singleton container.
    pub fn vtable(&self) -> (vtable: u64)
        ensures
            vtable == self.vtable,
    {
        self.vtable
    }

    /// Offset of a field, by name. Resolved from metadata, so it works whether
    /// or not any instance exists.
    pub fn field(&self, module: &Module, name: &str) -> (offset: Option<u32>)
        ensures
            offset == module.offset(self.image@, self.name@, name@),
    {
        field_offset(module, self.image, self.name, name)
    }

    /// Address of a static field, for values that live on the class rather
    /// than on an instance.
    pub fn static_field(&self, module: &Module, name: &str) -> (address: Option<u64>)
        ensures
            address == static_in(*module, self.image@, self.name@, name@),
    {
        static_field(module, self.image, self.name, name)
    }

    /// Whether a previously located instance is still the object we think it
    /// is. Two reads, cheap enough to do every tick.
    pub fn still_valid<M: Memory>(&self, memory: &M, instance: u64) -> (valid: bool)
        ensures
            valid == self.validator.admits(memory, instance),
    {
        self.validator.accepts(memory, instance)
    }

    /// A sweep for instances of this class that has not read anything yet.
    pub open spec fn fresh_sweep(
        self,
        ranges: Seq<MemoryRange>,
        limit: Option<usize>,
        anchor: Option<u64>,
        scan: Scan,
    ) -> bool {
        &&& scan.wf()
        &&& scan.quarry() == (Quarry {
            needle: self.vtable,
            anchor,
            validator: Some(self.validator),
            limit,
        })
        &&& scan.ranges@ == scannable(ranges)
        &&& scan.range_index == 0
        &&& scan.offset == 0
        &&& scan.tally() == (Tally {
            found: Seq::empty(),
            found_ranges: Seq::empty(),
            anchor_ranges: Seq::empty(),
            rejected: Seq::empty(),
            stats: surveyed(ranges),
            stopped: false,
        })
    }

    /// Begins a sweep of the whole address space.
    ///
    /// Says why, not just that: a sweep is the expensive path, and a log that
    /// only says one happened leaves whoever reads it guessing whether the table
    /// was missing, unreadable, or simply did not have the object. An `anchor`
    /// is only worth passing where there is no table to lose.
    pub fn sweep(
        &self,
        ranges: &[MemoryRange],
        limit: Option<usize>,
        why: Why,
        anchor: Option<u64>,
        log: &mut Vec<Note>,
    ) -> (scan: Scan)
        ensures
            self.fresh_sweep(ranges@, limit, anchor, scan),
            final(log)@ == old(log)@.push(Note::SweepStarting { name: self.name, why }),
    {
        let mut scan = Scan::new(ranges, self.vtable).validating(self.validator);
        if let Some(n) = limit {
            scan = scan.limit(n);
        }
        if let Some(anchor) = anchor {
            scan = scan.also_finding(anchor);
        }
        log.push(Note::SweepStarting { name: self.name, why });
        scan
    }

    /// What a finished sweep says of itself.
    pub open spec fn sweep_note(self, scan: Scan) -> Note {
        Note::SweepDone {
            name: self.name,
            stats: scan.stats,
            found: scan.found@.len() as usize,
            rejected: scan.rejected@.len() as usize,
        }
    }

    /// What a finished sweep turned up.
    pub fn swept(&self, scan: Scan, log: &mut Vec<Note>) -> (found: Found)
        ensures
            final(log)@ == old(log)@.push(self.sweep_note(scan)),
            found.instances@ == scan.found@,
            found.conclusive == (scan.stats.bytes_total > 0 && scan.stats.bytes_unreadable == 0),
            found.table_candidates@ == scan.anchor_ranges@,
    {
        log.push(
            Note::SweepDone {
                name: self.name,
                stats: scan.stats,
                found: scan.found.len(),
                rejected: scan.rejected.len(),
            },
        );
        let conclusive = scan.is_conclusive();
        Found { instances: scan.found, conclusive, table_candidates: scan.anchor_ranges }
    }
}

} // verus!
