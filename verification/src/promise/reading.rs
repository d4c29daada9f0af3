//! What lies in memory, and what reading it gives.
use vstd::bytes::{
    lemma_auto_spec_u16_to_from_le_bytes, lemma_auto_spec_u32_to_from_le_bytes,
    lemma_auto_spec_u64_to_from_le_bytes, spec_u16_from_le_bytes, spec_u16_to_le_bytes,
    spec_u32_to_le_bytes, spec_u64_to_le_bytes,
};
use vstd::prelude::*;

use crate::collections::{is_segment, is_string, units_in, until_nul};
use crate::memory::{field_pointer, i32_at, i64_at, plus, pointer_at, u32_at, u64_at, u8_at, Memory};
use crate::metadata::{class_named, class_with, offset_of, Class, Field, Module};
use crate::text::utf16;

verus! {

/// The address space's end.
pub open spec fn top() -> int {
    0x1_0000_0000_0000_0000
}

/// Whether a read gives as many bytes as it asks for, if any.
pub open spec fn is_honest<M: Memory>(memory: &M) -> bool {
    forall|at: u64, n: nat|
        (#[trigger] memory.contents(at, n)) matches Some(bytes) ==> bytes.len() == n
}

/// Whether the word at `at` is `word`, least byte first.
pub open spec fn has_word<M: Memory>(memory: &M, at: int, word: u64) -> bool {
    0 <= at < top() && memory.contents(at as u64, 8) == Some(spec_u64_to_le_bytes(word))
}

/// The bits of a 32-bit number, negative ones counted down from the top.
pub open spec fn bits_of(number: i32) -> u32 {
    if number >= 0 {
        number as u32
    } else {
        (0x1_0000_0000 + number) as u32
    }
}

/// Whether the 32-bit number at `at` is `number`.
pub open spec fn has_number<M: Memory>(memory: &M, at: int, number: i32) -> bool {
    0 <= at < top() && memory.contents(at as u64, 4) == Some(spec_u32_to_le_bytes(bits_of(number)))
}

/// Whether the byte at `at` is `byte`.
pub open spec fn has_byte<M: Memory>(memory: &M, at: int, byte: u8) -> bool {
    0 <= at < top() && memory.contents(at as u64, 1) == Some(seq![byte])
}

/// A text of characters that take a byte each, none of them NUL.
pub open spec fn is_ascii(text: Seq<char>) -> bool {
    forall|i: int| 0 <= i < text.len() ==> 0 < (#[trigger] text[i]) as int && (text[i] as int) < 0x80
}

/// Whether the unit at place `k` of a text's bytes is `unit`.
pub open spec fn is_unit(bytes: Seq<u8>, k: int, unit: int) -> bool {
    bytes.subrange(2 * k, 2 * k + 2) == spec_u16_to_le_bytes(unit as u16)
}

/// Whether the units at the front of a text's bytes are those of `text`.
pub open spec fn spells(bytes: Seq<u8>, text: Seq<char>) -> bool {
    forall|k: int| 0 <= k < text.len() ==> #[trigger] is_unit(bytes, k, text[k] as int)
}

/// Whether the string object at `at` holds `text`, which fits the 64 units that
/// are looked at: its length, then its units, then a NUL where there is room.
pub open spec fn has_text<M: Memory>(memory: &M, at: int, text: Seq<char>) -> bool {
    &&& is_ascii(text)
    &&& text.len() <= 64
    &&& 0 <= at
    &&& at + 0x14 < top()
    &&& has_number(memory, at + 0x10, text.len() as i32)
    &&& memory.contents((at + 0x14) as u64, 128) matches Some(bytes) && bytes.len() == 128
        && spells(bytes, text) && (text.len() < 64 ==> is_unit(bytes, text.len() as int, 0))
}

/// Whether the string object at `at` holds `text` and then more, behind a dot.
pub open spec fn has_segment<M: Memory>(memory: &M, at: int, text: Seq<char>) -> bool {
    &&& is_ascii(text)
    &&& text.len() < 64
    &&& 0 <= at
    &&& at + 0x14 < top()
    &&& exists|len: i32| text.len() < len <= 64 && #[trigger] has_number(memory, at + 0x10, len)
    &&& memory.contents((at + 0x14) as u64, 128) matches Some(bytes) && bytes.len() == 128
        && spells(bytes, text) && is_unit(bytes, text.len() as int, 0x2E)
}

/// A sum of an address and an offset wraps at the top of the address space, and
/// nowhere else.
pub proof fn addresses_add_up(address: u64, offset: u64)
    ensures
        plus(address, offset) as int == (address + offset) % top(),
{
}

/// What lies in memory is what is read: words and numbers least byte first,
/// numbers with their sign, and a null reference for none.
pub proof fn what_is_there_is_read<M: Memory>(memory: &M, at: int, word: u64, number: i32, byte: u8)
    ensures
        has_word(memory, at, word) ==> {
            &&& u64_at(memory, at as u64) == Some(word)
            &&& pointer_at(memory, at as u64) == if word == 0 {
                None
            } else {
                Some(word)
            }
            &&& i64_at(memory, at as u64) == Some(
                if word < 0x8000_0000_0000_0000 {
                    word as i64
                } else {
                    (word - top()) as i64
                },
            )
        },
        has_number(memory, at, number) ==> {
            &&& i32_at(memory, at as u64) == Some(number)
            &&& u32_at(memory, at as u64) == Some(bits_of(number))
        },
        has_byte(memory, at, byte) ==> u8_at(memory, at as u64) == Some(byte),
{
    lemma_auto_spec_u64_to_from_le_bytes();
    lemma_auto_spec_u32_to_from_le_bytes();
    assert(spec_u64_to_le_bytes(word).len() == 8);
    assert(spec_u32_to_le_bytes(bits_of(number)).len() == 4);
}

/// What is read is what lies in memory.
pub proof fn what_is_read_is_there<M: Memory>(memory: &M, at: u64)
    requires
        is_honest(memory),
    ensures
        u64_at(memory, at) matches Some(word) ==> has_word(memory, at as int, word),
        pointer_at(memory, at) matches Some(word) ==> word != 0 && has_word(
            memory,
            at as int,
            word,
        ),
        i32_at(memory, at) matches Some(number) ==> has_number(memory, at as int, number),
        u8_at(memory, at) matches Some(byte) ==> has_byte(memory, at as int, byte),
{
    lemma_auto_spec_u64_to_from_le_bytes();
    lemma_auto_spec_u32_to_from_le_bytes();
    if u8_at(memory, at) is Some {
        let bytes = memory.contents(at, 1)->0;
        assert(bytes =~= seq![bytes[0]]);
    }
}

/// A reference in a field is read at the field's place in the object.
pub proof fn a_field_is_at_its_offset<M: Memory>(memory: &M, object: u64, offset: u32, value: u64)
    requires
        object + offset < top(),
        has_word(memory, object + offset, value),
    ensures
        field_pointer(memory, object, offset) == if value == 0 {
            None
        } else {
            Some(value)
        },
{
    what_is_there_is_read(memory, object + offset, value, 0, 0);
}

proof fn lemma_utf16_ascii(text: Seq<char>)
    requires
        is_ascii(text),
    ensures
        utf16(text).len() == text.len(),
        forall|k: int|
            0 <= k < text.len() ==> #[trigger] utf16(text)[k] == text[k] as u16 && utf16(text)[k]
                != 0,
    decreases text.len(),
{
    if text.len() > 0 {
        let init = text.drop_last();
        assert forall|i: int| 0 <= i < init.len() implies 0 < (#[trigger] init[i]) as int && (
        init[i] as int) < 0x80 by {
            assert(init[i] == text[i]);
        }
        lemma_utf16_ascii(init);
        let last = text.last();
        assert(text[text.len() - 1] == last);
        assert(last as u32 as int == last as int);
        assert(last as u32 as u16 == last as u16);
        assert forall|k: int| 0 <= k < text.len() implies #[trigger] utf16(text)[k]
            == text[k] as u16 && utf16(text)[k] != 0 by {
            if k < init.len() {
                assert(utf16(text)[k] == utf16(init)[k]);
                assert(init[k] == text[k]);
            }
        }
    }
}

proof fn lemma_until_nul(units: Seq<u16>)
    ensures
        until_nul(units).len() <= units.len(),
        forall|k: int| 0 <= k < until_nul(units).len() ==> #[trigger] until_nul(units)[k]
            == units[k] && units[k] != 0,
        until_nul(units).len() < units.len() ==> units[until_nul(units).len() as int] == 0,
    decreases units.len(),
{
    if units.len() > 0 && units[0] != 0 {
        let rest = units.drop_first();
        lemma_until_nul(rest);
        let some = until_nul(units);
        assert forall|k: int| 0 <= k < some.len() implies #[trigger] some[k] == units[k] && units[k]
            != 0 by {
            if k > 0 {
                assert(some[k] == until_nul(rest)[k - 1]);
                assert(rest[k - 1] == units[k]);
            }
        }
    }
}

/// The units of a buffer, as they are spelled.
proof fn lemma_units(bytes: Seq<u8>, k: int, unit: int)
    requires
        bytes.len() == 128,
        0 <= k < 64,
        0 <= unit < 0x1_0000,
    ensures
        units_in(bytes).len() == 64,
        is_unit(bytes, k, unit) <==> units_in(bytes)[k] == unit as u16,
{
    lemma_auto_spec_u16_to_from_le_bytes();
    let part = bytes.subrange(2 * k, 2 * k + 2);
    assert(units_in(bytes)[k] == spec_u16_from_le_bytes(part));
    assert(spec_u16_to_le_bytes(spec_u16_from_le_bytes(part)) == part);
    assert(spec_u16_to_le_bytes(unit as u16).len() == 2);
}

proof fn lemma_spells(bytes: Seq<u8>, text: Seq<char>)
    requires
        bytes.len() == 128,
        is_ascii(text),
        text.len() <= 64,
    ensures
        spells(bytes, text) <==> (until_nul(units_in(bytes)).len() >= text.len() && until_nul(
            units_in(bytes),
        ).take(text.len() as int) == utf16(text)),
{
    let units = units_in(bytes);
    let some = until_nul(units);
    let wanted = utf16(text);
    lemma_utf16_ascii(text);
    lemma_until_nul(units);
    assert forall|k: int| 0 <= k < text.len() implies (#[trigger] is_unit(
        bytes,
        k,
        text[k] as int,
    ) <==> units[k] == wanted[k]) by {
        lemma_units(bytes, k, text[k] as int);
        assert(wanted[k] == text[k] as u16);
    }
    if spells(bytes, text) {
        if some.len() < text.len() {
            let k = some.len() as int;
            assert(is_unit(bytes, k, text[k] as int));
            assert(units[k] == 0);
            assert(wanted[k] != 0);
        }
        assert forall|k: int| 0 <= k < text.len() implies some.take(text.len() as int)[k]
            == wanted[k] by {
            assert(is_unit(bytes, k, text[k] as int));
            assert(some[k] == units[k]);
        }
        assert(some.take(text.len() as int) =~= wanted);
    }
    if some.len() >= text.len() && some.take(text.len() as int) == wanted {
        assert forall|k: int| 0 <= k < text.len() implies #[trigger] is_unit(
            bytes,
            k,
            text[k] as int,
        ) by {
            assert(some.take(text.len() as int)[k] == some[k]);
            assert(some[k] == units[k]);
        }
    }
}

/// A string is told by its length and its characters, all of them: one that holds
/// the text is it, and one that is taken for it holds the text.
pub proof fn a_string_is_its_text<M: Memory>(memory: &M, at: u64, text: Seq<char>)
    requires
        is_honest(memory),
        is_ascii(text),
        at + 0x14 < top(),
    ensures
        is_string(memory, at, text) <==> has_text(memory, at as int, text),
{
    what_is_read_is_there(memory, (at + 0x10) as u64);
    lemma_utf16_ascii(text);
    if text.len() <= 64 {
        what_is_there_is_read(memory, at + 0x10, 0, text.len() as i32, 0);
        match memory.contents((at + 0x14) as u64, 128) {
            Some(bytes) => {
                let units = units_in(bytes);
                let some = until_nul(units);
                lemma_spells(bytes, text);
                lemma_until_nul(units);
                lemma_units(bytes, 0, 0);
                if text.len() < 64 {
                    lemma_units(bytes, text.len() as int, 0);
                }
                if is_string(memory, at, text) {
                    assert(some.take(text.len() as int) =~= some);
                }
                if has_text(memory, at as int, text) {
                    if some.len() > text.len() {
                        assert(some[text.len() as int] == units[text.len() as int]);
                    }
                    assert(some.take(text.len() as int) =~= some);
                }
            },
            None => {},
        }
    }
}

/// A template's name is told with or without more behind a dot, and in no other
/// way.
pub proof fn a_template_is_its_name<M: Memory>(memory: &M, at: u64, text: Seq<char>)
    requires
        is_ascii(text),
        text.len() < 64,
        at + 0x14 < top(),
    ensures
        has_text(memory, at as int, text) ==> is_segment(memory, at, text),
        has_segment(memory, at as int, text) ==> is_segment(memory, at, text),
        is_honest(memory) && is_segment(memory, at, text) ==> (memory.contents(
            (at + 0x14) as u64,
            128,
        ) matches Some(bytes) && spells(bytes, text) && (is_unit(bytes, text.len() as int, 0)
            || is_unit(bytes, text.len() as int, 0x2E))),
{
    lemma_utf16_ascii(text);
    what_is_there_is_read(memory, at + 0x10, 0, text.len() as i32, 0);
    match memory.contents((at + 0x14) as u64, 128) {
        Some(bytes) => {
            if bytes.len() == 128 {
                let units = units_in(bytes);
                let some = until_nul(units);
                let n = text.len() as int;
                lemma_spells(bytes, text);
                lemma_until_nul(units);
                lemma_units(bytes, n, 0);
                lemma_units(bytes, n, 0x2E);
                if some.len() > n {
                    assert(some[n] == units[n]);
                }
                if has_segment(memory, at as int, text) {
                    let len = choose|len: i32|
                        text.len() < len <= 64 && #[trigger] has_number(memory, at + 0x10, len);
                    what_is_there_is_read(memory, at + 0x10, 0, len, 0);
                }
            }
        },
        None => {},
    }
}

/// A class is found by its image and name wherever it stands in the list, the
/// first of them where there are several.
pub proof fn a_class_is_found_by_name(module: Module, i: int, image: Seq<char>, name: Seq<char>)
    requires
        0 <= i < module.classes@.len(),
        module.classes@[i].image@ == image,
        module.classes@[i].name@ == name,
        forall|k: int|
            0 <= k < i ==> !((#[trigger] module.classes@[k]).image@ == image
                && module.classes@[k].name@ == name),
    ensures
        module.named(image, name) == Some(module.classes@[i]),
        module.vtable(image, name) == module.classes@[i].vtable,
{
    lemma_class_named(module.classes@, i, image, name);
}

proof fn lemma_class_named(classes: Seq<Class>, i: int, image: Seq<char>, name: Seq<char>)
    requires
        0 <= i < classes.len(),
        classes[i].image@ == image,
        classes[i].name@ == name,
        forall|k: int|
            0 <= k < i ==> !((#[trigger] classes[k]).image@ == image && classes[k].name@ == name),
    ensures
        class_named(classes, image, name) == Some(classes[i]),
    decreases i,
{
    if i > 0 {
        let rest = classes.drop_first();
        assert(!(classes[0].image@ == image && classes[0].name@ == name));
        assert forall|k: int| 0 <= k < i - 1 implies !((#[trigger] rest[k]).image@ == image
            && rest[k].name@ == name) by {
            assert(rest[k] == classes[k + 1]);
        }
        lemma_class_named(rest, i - 1, image, name);
    }
}

/// A class that is found has the image and name asked for.
pub proof fn a_named_class_has_that_name(module: Module, image: Seq<char>, name: Seq<char>)
    ensures
        module.named(image, name) matches Some(class) ==> class.image@ == image && class.name@
            == name && module.classes@.contains(class),
{
    lemma_named(module.classes@, image, name);
}

proof fn lemma_named(classes: Seq<Class>, image: Seq<char>, name: Seq<char>)
    ensures
        class_named(classes, image, name) matches Some(class) ==> class.image@ == image
            && class.name@ == name && classes.contains(class),
    decreases classes.len(),
{
    if classes.len() > 0 {
        if classes[0].image@ == image && classes[0].name@ == name {
            assert(classes.contains(classes[0]));
        } else {
            let rest = classes.drop_first();
            lemma_named(rest, image, name);
            if let Some(class) = class_named(rest, image, name) {
                let k = rest.index_of(class);
                assert(classes[k + 1] == class);
            }
        }
    }
}

/// An object's class is the one with the vtable that the object begins with.
pub proof fn an_object_names_its_class<M: Memory>(
    memory: &M,
    module: Module,
    object: u64,
    vtable: u64,
    i: int,
)
    requires
        has_word(memory, object as int, vtable),
        vtable != 0,
        0 <= i < module.classes@.len(),
        module.classes@[i].vtable == Some(vtable),
        forall|k: int| 0 <= k < i ==> (#[trigger] module.classes@[k]).vtable != Some(vtable),
    ensures
        module.class_of(memory, object) == Some(module.classes@[i]),
{
    what_is_there_is_read(memory, object as int, vtable, 0, 0);
    lemma_class_with(module.classes@, vtable, i);
}

proof fn lemma_class_with(classes: Seq<Class>, vtable: u64, i: int)
    requires
        0 <= i < classes.len(),
        classes[i].vtable == Some(vtable),
        forall|k: int| 0 <= k < i ==> (#[trigger] classes[k]).vtable != Some(vtable),
    ensures
        class_with(classes, vtable) == Some(classes[i]),
    decreases i,
{
    if i > 0 {
        let rest = classes.drop_first();
        assert(classes[0].vtable != Some(vtable));
        assert forall|k: int| 0 <= k < i - 1 implies (#[trigger] rest[k]).vtable != Some(
            vtable,
        ) by {
            assert(rest[k] == classes[k + 1]);
        }
        lemma_class_with(rest, vtable, i - 1);
    }
}

/// A field's offset is that of the first field of the name, and there is none
/// where no field has it.
pub proof fn a_field_is_found_by_name(class: Class, name: Seq<char>)
    ensures
        class.offset(name) is None <==> forall|k: int|
            0 <= k < class.fields@.len() ==> (#[trigger] class.fields@[k]).name@ != name,
        forall|i: int|
            0 <= i < class.fields@.len() && (#[trigger] class.fields@[i]).name@ == name && (forall|
                k: int,
            |
                0 <= k < i ==> (#[trigger] class.fields@[k]).name@ != name) ==> class.offset(name)
                == Some(class.fields@[i].offset),
{
    lemma_offset_of(class.fields@, name);
}

proof fn lemma_offset_of(fields: Seq<Field>, name: Seq<char>)
    ensures
        offset_of(fields, name) is None <==> forall|k: int|
            0 <= k < fields.len() ==> (#[trigger] fields[k]).name@ != name,
        forall|i: int|
            0 <= i < fields.len() && (#[trigger] fields[i]).name@ == name && (forall|k: int|
                0 <= k < i ==> (#[trigger] fields[k]).name@ != name) ==> offset_of(fields, name)
                == Some(fields[i].offset),
    decreases fields.len(),
{
    if fields.len() > 0 {
        let rest = fields.drop_first();
        lemma_offset_of(rest, name);
        if fields[0].name@ != name {
            assert forall|k: int| 0 <= k < rest.len() implies (#[trigger] rest[k]) == fields[k
                + 1] by {}
            if offset_of(fields, name) is None {
                assert forall|k: int| 0 <= k < fields.len() implies (#[trigger] fields[k]).name@
                    != name by {
                    if k > 0 {
                        assert(rest[k - 1].name@ != name);
                    }
                }
            }
            assert forall|i: int|
                0 <= i < fields.len() && (#[trigger] fields[i]).name@ == name && (forall|k: int|
                    0 <= k < i ==> (#[trigger] fields[k]).name@ != name) implies offset_of(
                fields,
                name,
            ) == Some(fields[i].offset) by {
                assert(rest[i - 1] == fields[i]);
                assert forall|k: int| 0 <= k < i - 1 implies (#[trigger] rest[k]).name@ != name by {
                    assert(rest[k] == fields[k + 1]);
                }
            }
        }
    }
}

} // verus!
