//! Reading .NET collections out of the game.
//!
//! Collection layouts belong to Unity's Mono BCL rather than to Timberborn, so
//! they move on a Unity upgrade rather than a game patch. Field offsets are
//! therefore resolved by name like everything else: a generic instantiation
//! such as `HashSet<string>` cannot be looked up in an image by name, but any
//! instance points at its own class.
//!
//! What genuinely has to be hardcoded is the shape of the Mono runtime's own
//! object headers, which are not managed types and have no named fields. Those
//! are part of the Mono ABI and far more stable than a BCL implementation.
use vstd::bytes::{spec_u16_from_le_bytes, u16_from_le_bytes};
use vstd::prelude::*;
use vstd::slice::slice_subrange;

use crate::memory::{
    field_pointer, i32_at, i64_at, offset_by, plus, pointer_at, read_i32, read_i64, read_pointer,
    read_pointer_raw, Memory,
};
use crate::metadata::Module;
use crate::text::{utf16, utf16_units};

verus! {

/// `MonoArray`: object header, then bounds, then length, then the elements.
pub const ARRAY_LENGTH: u64 = 0x18;

pub const ARRAY_DATA: u64 = 0x20;

/// `MonoString`: object header, then the length, then UTF-16 characters.
pub const STRING_LENGTH: u64 = 0x10;

pub const STRING_CHARS: u64 = 0x14;

/// Longest string compared against. Template names are far shorter.
pub const MAX_CHARS: usize = 64;

/// `Slot<T>` for a reference `T`: `int _hashCode`, `int _next`, then the
/// reference. A plain consequence of the struct's declared fields and 64-bit
/// alignment.
pub const SLOT_SIZE: u64 = 16;

pub const SLOT_VALUE: u64 = 8;

/// Consecutive little-endian UTF-16 units.
pub open spec fn units_in(bytes: Seq<u8>) -> Seq<u16> {
    Seq::new(
        bytes.len() / 2,
        |i: int| spec_u16_from_le_bytes(bytes.subrange(2 * i, 2 * i + 2)),
    )
}

/// The units before the first NUL.
pub open spec fn until_nul(units: Seq<u16>) -> Seq<u16>
    decreases units.len(),
{
    if units.len() == 0 || units[0] == 0 {
        Seq::empty()
    } else {
        seq![units[0]] + until_nul(units.drop_first())
    }
}

/// The characters stored in the .NET string at `address`: as many as a
/// [`MAX_CHARS`] buffer takes, up to a NUL.
pub open spec fn string_units<M: Memory>(memory: &M, address: u64) -> Option<Seq<u16>> {
    match memory.contents(plus(address, STRING_CHARS), 128) {
        Some(bytes) => Some(until_nul(units_in(bytes))),
        None => None,
    }
}

/// Whether the .NET string at `address` is `expected`.
pub open spec fn is_string<M: Memory>(memory: &M, address: u64, expected: Seq<char>) -> bool {
    let wanted = utf16(expected);
    match (i32_at(memory, plus(address, STRING_LENGTH)), string_units(memory, address)) {
        (Some(len), Some(units)) => len == wanted.len() && len <= MAX_CHARS && units == wanted,
        _ => false,
    }
}

/// Whether the .NET string at `address` is `expected`, or goes on after it with
/// a `.`.
pub open spec fn is_segment<M: Memory>(memory: &M, address: u64, expected: Seq<char>) -> bool {
    let wanted = utf16(expected);
    match (i32_at(memory, plus(address, STRING_LENGTH)), string_units(memory, address)) {
        (Some(len), Some(units)) => {
            &&& wanted.len() <= len <= MAX_CHARS
            &&& wanted.len() <= units.len()
            &&& units.take(wanted.len() as int) == wanted
            &&& (units.len() == wanted.len() || units[wanted.len() as int] == 0x2Eu16)
        },
        _ => false,
    }
}

proof fn lemma_until_nul(units: Seq<u16>, n: int)
    requires
        0 <= n <= units.len(),
        forall|i: int| 0 <= i < n ==> units[i] != 0,
        n < units.len() ==> units[n] == 0,
    ensures
        until_nul(units) == units.take(n),
    decreases n,
{
    if n > 0 {
        let rest = units.drop_first();
        assert forall|i: int| 0 <= i < n - 1 implies rest[i] != 0 by {
            assert(rest[i] == units[i + 1]);
        }
        lemma_until_nul(rest, n - 1);
        assert(units.take(n) =~= seq![units[0]] + rest.take(n - 1));
    } else {
        assert(units.take(0) =~= Seq::<u16>::empty());
    }
}

/// The characters of the .NET string at `address`, up to a NUL.
fn read_units<M: Memory>(memory: &M, address: u64) -> (units: Option<Vec<u16>>)
    ensures
        units is Some <==> string_units(memory, address) is Some,
        units is Some ==> units->0@ == string_units(memory, address)->0,
{
    let mut buf: Vec<u8> = vec![0u8; 128];
    if !memory.read(offset_by(address, STRING_CHARS), buf.as_mut_slice()) {
        return None;
    }
    let ghost all = units_in(buf@);
    let mut units: Vec<u16> = Vec::new();
    let mut i: usize = 0;
    while i < MAX_CHARS
        invariant
            i <= MAX_CHARS,
            buf@.len() == 128,
            all == units_in(buf@),
            all.len() == 64,
            units@ == all.take(i as int),
            forall|j: int| 0 <= j < i ==> all[j] != 0,
            string_units(memory, address) == Some(until_nul(all)),
        decreases MAX_CHARS - i,
    {
        let unit: u16 = u16_from_le_bytes(slice_subrange(buf.as_slice(), 2 * i, 2 * i + 2));
        assert(unit == all[i as int]);
        if unit == 0 {
            proof {
                lemma_until_nul(all, i as int);
            }
            return Some(units);
        }
        assert(all.take(i + 1) =~= all.take(i as int).push(unit));
        units.push(unit);
        i = i + 1;
    }
    proof {
        lemma_until_nul(all, 64);
    }
    Some(units)
}

/// Whether the units of `found` from the start are exactly `wanted`.
fn starts_with(found: &Vec<u16>, wanted: &Vec<u16>) -> (starts: bool)
    ensures
        starts == (wanted@.len() <= found@.len() && found@.take(wanted@.len() as int)
            == wanted@),
{
    if found.len() < wanted.len() {
        return false;
    }
    let mut i: usize = 0;
    while i < wanted.len()
        invariant
            i <= wanted@.len() <= found@.len(),
            forall|j: int| 0 <= j < i ==> found@[j] == wanted@[j],
        decreases wanted@.len() - i,
    {
        if found[i] != wanted[i] {
            assert(found@.take(wanted@.len() as int)[i as int] != wanted@[i as int]);
            return false;
        }
        i = i + 1;
    }
    assert(found@.take(wanted@.len() as int) =~= wanted@);
    true
}

/// Whether a .NET string at `address` is `expected`, optionally followed by a
/// `.`-separated suffix.
///
/// Live entities name their component cache `<template>.EntityComponent`, while
/// prefabs use the bare template name, so both have to match. Requiring a `.`
/// boundary stops `Forester.Folktails` matching a longer template that merely
/// starts the same way.
pub fn string_starts_with_segment<M: Memory>(memory: &M, address: u64, expected: &str) -> (matches:
    bool)
    ensures
        matches == is_segment(memory, address, expected@),
{
    let len: i32 = match read_i32(memory, offset_by(address, STRING_LENGTH)) {
        Some(len) => len,
        None => {
            return false;
        },
    };
    let wanted = utf16_units(expected);
    if len < 0 || (len as usize) < wanted.len() || len as usize > MAX_CHARS {
        return false;
    }
    match read_units(memory, address) {
        Some(units) => starts_with(&units, &wanted) && (units.len() == wanted.len()
            || units[wanted.len()] == 0x2Eu16),
        None => false,
    }
}

/// Whether a .NET string at `address` equals `expected`.
///
/// The length is checked first, so a shorter string cannot match a prefix and
/// the character read only happens when it could succeed.
pub fn string_eq<M: Memory>(memory: &M, address: u64, expected: &str) -> (equal: bool)
    ensures
        equal == is_string(memory, address, expected@),
{
    let len: i32 = match read_i32(memory, offset_by(address, STRING_LENGTH)) {
        Some(len) => len,
        None => {
            return false;
        },
    };
    let wanted = utf16_units(expected);
    if len < 0 || len as usize != wanted.len() || len as usize > MAX_CHARS {
        return false;
    }
    match read_units(memory, address) {
        Some(units) => {
            let equal = units.len() == wanted.len() && starts_with(&units, &wanted);
            assert(units@.len() == wanted@.len() ==> units@.take(wanted@.len() as int) =~= units@);
            equal
        },
        None => false,
    }
}

/// A `HashSet<T>` whose field offsets have been resolved from an instance.
///
/// Mono's implementation stores `Slot { int _hashCode; int _next; T _value; }`
/// in `_slots`, with occupied slots marked by a non-negative `_hashCode` and
/// `_lastIndex` bounding the used region.
pub struct HashSet {
    pub slots: u64,
    pub last_index: i32,
}

/// Mono's `HashSet<T>` after the object header: the references first
/// (`_buckets`, `_slots`, `_comparer`, `_siInfo`), then the ints (`_count`,
/// `_lastIndex`, `_freeList`, `_version`). Used only when the class metadata
/// cannot answer; see [`List::offsets`] for why that happens.
pub const SET_SLOTS: u32 = 0x18;

pub const SET_COUNT: u32 = 0x30;

pub const SET_LAST_INDEX: u32 = 0x34;

/// Whether the object at `address` holds a plausible slot array, with a used
/// region inside it and a count inside that.
pub open spec fn reads_as_a_set<M: Memory>(memory: &M, address: u64) -> bool {
    match field_pointer(memory, address, SET_SLOTS) {
        Some(slots) => match (
            i64_at(memory, plus(slots, ARRAY_LENGTH)),
            i32_at(memory, plus(address, SET_COUNT as u64)),
            i32_at(memory, plus(address, SET_LAST_INDEX as u64)),
        ) {
            (Some(capacity), Some(count), Some(last_index)) => capacity > 0 && 0 <= count
                <= last_index <= capacity,
            _ => false,
        },
        None => false,
    }
}

/// Where `_count` is on the set at `address`: by name where the class answers,
/// else the known place when the object agrees with it.
pub open spec fn set_count_offset<M: Memory>(memory: &M, module: Module, address: u64) -> Option<
    u32,
> {
    let named = match module.class_of(memory, address) {
        Some(class) => class.offset("_count"@),
        None => None,
    };
    if named is Some {
        named
    } else if reads_as_a_set(memory, address) {
        Some(SET_COUNT)
    } else {
        None
    }
}

/// Where `_slots` and `_lastIndex` are on the set at `address`.
pub open spec fn set_offsets<M: Memory>(memory: &M, module: Module, address: u64) -> Option<
    (u32, u32),
> {
    let named = match module.class_of(memory, address) {
        Some(class) => (class.offset("_slots"@), class.offset("_lastIndex"@)),
        None => (None, None),
    };
    match named {
        (Some(slots), Some(last_index)) => Some((slots, last_index)),
        _ => if reads_as_a_set(memory, address) {
            Some((SET_SLOTS, SET_LAST_INDEX))
        } else {
            None
        },
    }
}

/// The shape of the set at `address`.
pub open spec fn set_at<M: Memory>(memory: &M, module: Module, address: u64) -> Option<HashSet> {
    match set_offsets(memory, module, address) {
        Some((slots_field, last_index_field)) => match (
            field_pointer(memory, address, slots_field),
            i32_at(memory, plus(address, last_index_field as u64)),
        ) {
            (Some(slots), Some(last_index)) => match i64_at(memory, plus(slots, ARRAY_LENGTH)) {
                Some(capacity) => if capacity > 0 && 0 <= last_index <= capacity {
                    Some(HashSet { slots, last_index })
                } else {
                    None
                },
                None => None,
            },
            _ => None,
        },
        None => None,
    }
}

/// Offset of `_count` on a `HashSet<T>`, resolved once so the cheap "has
/// anything changed" check does not need the rest of the layout.
pub fn count_offset<M: Memory>(memory: &M, module: &Module, address: u64) -> (offset: Option<u32>)
    ensures
        offset == set_count_offset(memory, *module, address),
{
    if let Some(class) = module.of_object(memory, address) {
        if let Some(offset) = class.get_field_offset("_count") {
            return Some(offset);
        }
    }
    if HashSet::looks_like_a_set(memory, address) {
        Some(SET_COUNT)
    } else {
        None
    }
}

impl HashSet {
    /// Whether slot `i` is in use and holds a string equal to `expected`.
    pub open spec fn holds<M: Memory>(self, memory: &M, i: int, expected: Seq<char>) -> bool {
        let slot = plus(self.slots, (ARRAY_DATA + i * SLOT_SIZE) as u64);
        let free = i32_at(memory, slot) matches Some(hash) && hash < 0;
        !free && (pointer_at(memory, plus(slot, SLOT_VALUE)) matches Some(value) && is_string(
            memory,
            value,
            expected,
        ))
    }

    /// Whether some slot in use holds a string equal to `expected`.
    pub open spec fn contains<M: Memory>(self, memory: &M, expected: Seq<char>) -> bool {
        exists|i: int| 0 <= i < self.last_index && #[trigger] self.holds(memory, i, expected)
    }

    /// Offsets of `_slots` and `_lastIndex`, by name where possible.
    pub fn offsets<M: Memory>(memory: &M, module: &Module, address: u64) -> (offsets: Option<
        (u32, u32),
    >)
        ensures
            offsets == set_offsets(memory, *module, address),
    {
        if let Some(class) = module.of_object(memory, address) {
            let slots = class.get_field_offset("_slots");
            let last_index = class.get_field_offset("_lastIndex");
            if let (Some(slots), Some(last_index)) = (slots, last_index) {
                return Some((slots, last_index));
            }
        }
        if Self::looks_like_a_set(memory, address) {
            Some((SET_SLOTS, SET_LAST_INDEX))
        } else {
            None
        }
    }

    /// Whether the object holds a plausible slot array, with a used region
    /// inside it and a count inside that.
    pub fn looks_like_a_set<M: Memory>(memory: &M, address: u64) -> (looks: bool)
        ensures
            looks == reads_as_a_set(memory, address),
    {
        let slots: u64 = match read_pointer(memory, address, SET_SLOTS) {
            Some(slots) => slots,
            None => {
                return false;
            },
        };
        let capacity = read_i64(memory, offset_by(slots, ARRAY_LENGTH));
        let count = read_i32(memory, offset_by(address, SET_COUNT as u64));
        let last_index = read_i32(memory, offset_by(address, SET_LAST_INDEX as u64));
        match (capacity, count, last_index) {
            (Some(capacity), Some(count), Some(last_index)) => capacity > 0 && 0 <= count && count
                <= last_index && last_index as i64 <= capacity,
            _ => false,
        }
    }

    /// Reads the shape of the set at `address`. Returns `None` if it is not a
    /// hash set, or is not laid out the way we expect.
    pub fn read<M: Memory>(memory: &M, module: &Module, address: u64) -> (set: Option<Self>)
        ensures
            set == set_at(memory, *module, address),
    {
        let (slots_field, last_index_field) = match Self::offsets(memory, module, address) {
            Some(offsets) => offsets,
            None => {
                return None;
            },
        };
        let slots: u64 = match read_pointer(memory, address, slots_field) {
            Some(slots) => slots,
            None => {
                return None;
            },
        };
        let last_index: i32 = match read_i32(memory, offset_by(address, last_index_field as u64)) {
            Some(last_index) => last_index,
            None => {
                return None;
            },
        };
        let capacity: i64 = match read_i64(memory, offset_by(slots, ARRAY_LENGTH)) {
            Some(capacity) => capacity,
            None => {
                return None;
            },
        };
        if capacity <= 0 || last_index < 0 || last_index as i64 > capacity {
            return None;
        }
        Some(HashSet { slots, last_index })
    }

    /// Whether the set contains a string equal to `expected`.
    pub fn contains_str<M: Memory>(&self, memory: &M, expected: &str) -> (contains: bool)
        ensures
            contains == self.contains(memory, expected@),
    {
        let mut i: i32 = 0;
        while i < self.last_index
            invariant
                0 <= i,
                i <= self.last_index || i == 0,
                forall|j: int| 0 <= j < i ==> !#[trigger] self.holds(memory, j, expected@),
            decreases self.last_index - i,
        {
            let slot: u64 = offset_by(self.slots, ARRAY_DATA + i as u64 * SLOT_SIZE);
            // A negative hash marks a free slot.
            let free = match read_i32(memory, slot) {
                Some(hash) => hash < 0,
                None => false,
            };
            if !free {
                if let Some(value) = read_pointer_raw(memory, offset_by(slot, SLOT_VALUE)) {
                    if string_eq(memory, value, expected) {
                        assert(self.holds(memory, i as int, expected@));
                        return true;
                    }
                }
            }
            assert(!self.holds(memory, i as int, expected@));
            i = i + 1;
        }
        false
    }
}

/// A `List<T>` of references.
///
/// Only the offsets are needed: the elements are read directly out of the
/// backing array, which avoids resolving the class again per read.
pub struct List;

/// `List<T>` after the object header: `T[] _items`, then `int _size`, then
/// `int _version`. Used only when the class metadata cannot answer, and only
/// when the object agrees with it.
pub const LIST_ITEMS: u32 = 0x10;

pub const LIST_SIZE: u32 = 0x18;

/// Whether the object at `address` holds a plausible backing array and a count
/// that fits inside it.
pub open spec fn reads_as_a_list<M: Memory>(memory: &M, address: u64) -> bool {
    match field_pointer(memory, address, LIST_ITEMS) {
        Some(items) => match (
            i64_at(memory, plus(items, ARRAY_LENGTH)),
            i32_at(memory, plus(address, LIST_SIZE as u64)),
        ) {
            (Some(capacity), Some(size)) => capacity > 0 && 0 <= size <= capacity,
            _ => false,
        },
        None => false,
    }
}

/// Where `_size` and `_items` are on the list at `address`.
pub open spec fn list_offsets<M: Memory>(memory: &M, module: Module, address: u64) -> Option<
    (u32, u32),
> {
    let named = match module.class_of(memory, address) {
        Some(class) => (class.offset("_size"@), class.offset("_items"@)),
        None => (None, None),
    };
    match named {
        (Some(size), Some(items)) => Some((size, items)),
        _ => if reads_as_a_list(memory, address) {
            Some((LIST_SIZE, LIST_ITEMS))
        } else {
            None
        },
    }
}

impl List {
    /// Offsets of `_size` and `_items`, by name where possible.
    ///
    /// Mono fills a class's field table in lazily, and for an inflated generic
    /// nothing necessarily has: the class of a plain list has been seen
    /// reporting none of its fields while the object itself read like one.
    ///
    /// So the layout is the fallback, and it is only taken when the object
    /// reads like a list at those offsets: a real BCL change fails here rather
    /// than quietly yielding a wrong count.
    pub fn offsets<M: Memory>(memory: &M, module: &Module, address: u64) -> (offsets: Option<
        (u32, u32),
    >)
        ensures
            offsets == list_offsets(memory, *module, address),
    {
        if let Some(class) = module.of_object(memory, address) {
            let size = class.get_field_offset("_size");
            let items = class.get_field_offset("_items");
            if let (Some(size), Some(items)) = (size, items) {
                return Some((size, items));
            }
        }
        if Self::looks_like_a_list(memory, address) {
            Some((LIST_SIZE, LIST_ITEMS))
        } else {
            None
        }
    }

    /// Whether the object holds a plausible backing array and a count that fits
    /// inside it.
    pub fn looks_like_a_list<M: Memory>(memory: &M, address: u64) -> (looks: bool)
        ensures
            looks == reads_as_a_list(memory, address),
    {
        let items: u64 = match read_pointer(memory, address, LIST_ITEMS) {
            Some(items) => items,
            None => {
                return false;
            },
        };
        let capacity = read_i64(memory, offset_by(items, ARRAY_LENGTH));
        let size = read_i32(memory, offset_by(address, LIST_SIZE as u64));
        match (capacity, size) {
            (Some(capacity), Some(size)) => capacity > 0 && size >= 0 && size as i64 <= capacity,
            _ => false,
        }
    }
}

} // verus!
