//! A fixture as the JSON document that it is written as.
use vstd::prelude::*;

use crate::fixture::{
    class_in, class_text, classes_in, classes_text, field_in, field_text, fields_in, fields_text,
    fixture_in, fixture_text, ClassView, Doc, FaultView, FieldView, FixtureView, FORMAT,
};
use crate::json::{
    element, entries_spelled, escaped_all, held, holds, is_blank, is_plain, is_simple,
    items_spelled, leaf_at, quoted, spelled, under, understands, Lead, Tree,
};
use crate::text::decimal_text;

verus! {

/// An entry on a line with others.
pub open spec fn inline(key: Seq<char>) -> Lead {
    Lead { before: " "@, key, gap: " "@ }
}

/// A field, as a document.
pub open spec fn field_tree(field: FieldView) -> Tree {
    let offset = Tree::Number(field.offset as u64);
    match field.requested {
        Some(requested) => Tree::Object {
            leads: seq![
                inline("name"@),
                inline("requested"@),
                inline("type"@),
                inline("static"@),
                inline("offset"@),
            ],
            values: seq![
                Tree::Text(field.name),
                Tree::Text(requested),
                Tree::Text(field.declared_type),
                Tree::Bool(field.is_static),
                offset,
            ],
            tail: " "@,
        },
        None => Tree::Object {
            leads: seq![inline("name"@), inline("type"@), inline("static"@), inline("offset"@)],
            values: seq![
                Tree::Text(field.name),
                Tree::Text(field.declared_type),
                Tree::Bool(field.is_static),
                offset,
            ],
            tail: " "@,
        },
    }
}

/// Whether a text is quoted as it is.
spec fn is_clean(text: Seq<char>) -> bool {
    forall|i: int|
        0 <= i < text.len() ==> #[trigger] text[i] != '"' && text[i] != '\\' && text[i] as u32
            >= 0x20
}

proof fn lemma_clean(text: Seq<char>)
    requires
        is_clean(text),
    ensures
        quoted(text) == seq!['"'] + text + seq!['"'],
{
    lemma_unescaped(text);
}

proof fn lemma_unescaped(text: Seq<char>)
    requires
        is_clean(text),
    ensures
        escaped_all(text) == text,
    decreases text.len(),
{
    if text.len() > 0 {
        assert(is_clean(text.drop_last())) by {
            assert forall|i: int| 0 <= i < text.drop_last().len() implies #[trigger] text.drop_last()[i]
                != '"' && text.drop_last()[i] != '\\' && text.drop_last()[i] as u32 >= 0x20 by {
                assert(text.drop_last()[i] == text[i]);
            }
        }
        lemma_unescaped(text.drop_last());
        assert(text[text.len() - 1] != '"');
        assert(text.drop_last() + seq![text.last()] =~= text);
    } else {
        assert(escaped_all(text) =~= text);
    }
}

/// The keys of a field stand in its text as its document has them.
proof fn lemma_field_keys()
    ensures
        "        { \"name\": "@ == "        "@ + "{"@ + inline("name"@).spelled(),
        ", \"requested\": "@ == ","@ + inline("requested"@).spelled(),
        ", \"type\": "@ == ","@ + inline("type"@).spelled(),
        ", \"static\": "@ == ","@ + inline("static"@).spelled(),
        ", \"offset\": "@ == ","@ + inline("offset"@).spelled(),
        " }"@ == " "@ + "}"@,
{
    reveal_strlit("        { \"name\": ");
    reveal_strlit(", \"requested\": ");
    reveal_strlit(", \"type\": ");
    reveal_strlit(", \"static\": ");
    reveal_strlit(", \"offset\": ");
    reveal_strlit(" }");
    reveal_strlit("        ");
    reveal_strlit("{");
    reveal_strlit("}");
    reveal_strlit(" ");
    reveal_strlit(",");
    reveal_strlit(":");
    reveal_strlit("name");
    reveal_strlit("requested");
    reveal_strlit("type");
    reveal_strlit("static");
    reveal_strlit("offset");
    lemma_clean("name"@);
    lemma_clean("requested"@);
    lemma_clean("type"@);
    lemma_clean("static"@);
    lemma_clean("offset"@);
    assert("        { \"name\": "@ =~= "        "@ + "{"@ + inline("name"@).spelled());
    assert(", \"requested\": "@ =~= ","@ + inline("requested"@).spelled());
    assert(", \"type\": "@ =~= ","@ + inline("type"@).spelled());
    assert(", \"static\": "@ =~= ","@ + inline("static"@).spelled());
    assert(", \"offset\": "@ =~= ","@ + inline("offset"@).spelled());
    assert(" }"@ =~= " "@ + "}"@);
}

/// The first entry of an object, behind what stands in front of it.
proof fn lemma_first_entry(
    leads: Seq<Lead>,
    values: Seq<Tree>,
    front: Seq<char>,
    key: Lead,
    value: Seq<char>,
)
    requires
        values.len() >= 1,
        leads[0] == key,
        spelled(values[0]) == value,
    ensures
        front + key.spelled() + value == front + entries_spelled(leads, values, 1),
{
    let none = Seq::<char>::empty();
    assert(entries_spelled(leads, values, 0) == none);
    assert(entries_spelled(leads, values, 1) == none + none + key.spelled() + value);
    assert(front + key.spelled() + value =~= front + (none + none + key.spelled() + value));
}

/// An entry more of an object, behind what stands in front of it.
proof fn lemma_next_entry(
    leads: Seq<Lead>,
    values: Seq<Tree>,
    n: int,
    front: Seq<char>,
    key: Lead,
    value: Seq<char>,
)
    requires
        2 <= n <= values.len(),
        leads[n - 1] == key,
        spelled(values[n - 1]) == value,
    ensures
        front + entries_spelled(leads, values, n - 1) + (","@ + key.spelled()) + value == front
            + entries_spelled(leads, values, n),
{
    let before = entries_spelled(leads, values, n - 1);
    assert(entries_spelled(leads, values, n) == before + ","@ + key.spelled() + value);
    assert(front + before + (","@ + key.spelled()) + value =~= front + (before + ","@
        + key.spelled() + value));
}

/// An object, behind what stands in front of it.
proof fn lemma_object(
    pad: Seq<char>,
    leads: Seq<Lead>,
    values: Seq<Tree>,
    tail: Seq<char>,
)
    ensures
        pad + "{"@ + entries_spelled(leads, values, values.len() as int) + (tail + "}"@) == pad
            + spelled(Tree::Object { leads, values, tail }),
{
    let inside = entries_spelled(leads, values, values.len() as int);
    assert(pad + "{"@ + inside + (tail + "}"@) =~= pad + ("{"@ + inside + tail + "}"@));
}

/// A field's text is that of its document.
proof fn lemma_field_text(field: FieldView)
    ensures
        field_text(field) == "        "@ + spelled(field_tree(field)),
{
    lemma_field_keys();
    let tree = field_tree(field);
    let leads = tree->leads;
    let values = tree->values;
    let pad = "        "@;
    let front = pad + "{"@;
    let name = quoted(field.name);
    let kind = quoted(field.declared_type);
    let flag = if field.is_static {
        "true"@
    } else {
        "false"@
    };
    let number = decimal_text(field.offset as int);
    assert(values[0] == Tree::Text(field.name));
    lemma_first_entry(leads, values, front, inline("name"@), name);
    match field.requested {
        Some(requested) => {
            assert(values[1] == Tree::Text(requested));
            lemma_next_entry(leads, values, 2, front, inline("requested"@), quoted(requested));
            assert(values[2] == Tree::Text(field.declared_type));
            lemma_next_entry(leads, values, 3, front, inline("type"@), kind);
            assert(values[3] == Tree::Bool(field.is_static));
            lemma_next_entry(leads, values, 4, front, inline("static"@), flag);
            assert(values[4] == Tree::Number(field.offset as u64));
            lemma_next_entry(leads, values, 5, front, inline("offset"@), number);
            lemma_object(pad, leads, values, " "@);
            lemma_grouped(
                front + inline("name"@).spelled() + name,
                ","@ + inline("requested"@).spelled(),
                quoted(requested),
            );
        },
        None => {
            assert(values[1] == Tree::Text(field.declared_type));
            lemma_next_entry(leads, values, 2, front, inline("type"@), kind);
            assert(values[2] == Tree::Bool(field.is_static));
            lemma_next_entry(leads, values, 3, front, inline("static"@), flag);
            assert(values[3] == Tree::Number(field.offset as u64));
            lemma_next_entry(leads, values, 4, front, inline("offset"@), number);
            lemma_object(pad, leads, values, " "@);
            lemma_nothing(front + inline("name"@).spelled() + name);
        },
    }
}

/// Two texts more, one by one or together.
proof fn lemma_grouped(front: Seq<char>, a: Seq<char>, b: Seq<char>)
    ensures
        front + (a + b) == front + a + b,
{
    assert(front + (a + b) =~= front + a + b);
}

proof fn lemma_nothing(front: Seq<char>)
    ensures
        front + Seq::<char>::empty() == front,
{
    assert(front + Seq::<char>::empty() =~= front);
}

/// The same white space in front of each element.
pub open spec fn breaks(n: nat, text: Seq<char>) -> Seq<Seq<char>> {
    Seq::new(n, |i: int| text)
}

/// Fields, as the elements of a list.
pub open spec fn field_items(fields: Seq<FieldView>) -> Seq<Tree> {
    fields.map_values(|field: FieldView| field_tree(field))
}

/// A class's fields, as a list.
pub open spec fn fields_tree(fields: Seq<FieldView>) -> Tree {
    Tree::List {
        before: breaks(fields.len(), "\n        "@),
        items: field_items(fields),
        tail: if fields.len() == 0 {
            Seq::empty()
        } else {
            "\n      "@
        },
    }
}

/// What stands behind an element: a comma but for the last, and a line's end.
spec fn behind(n: int, all: nat) -> Seq<char> {
    if n == all {
        "\n"@
    } else {
        ",\n"@
    }
}

/// An element more of a list with a line for each.
proof fn lemma_next_item(
    before: Seq<Seq<char>>,
    items: Seq<Tree>,
    n: int,
    text: Seq<char>,
    pad: Seq<char>,
    lines: Seq<char>,
    more: Seq<char>,
    end: Seq<char>,
)
    requires
        1 <= n <= items.len(),
        n <= before.len(),
        before[n - 1] == "\n"@ + pad,
        text == pad + spelled(items[n - 1]),
        more == lines + text + end,
        n == 1 ==> lines.len() == 0,
        n > 1 ==> "\n"@ + lines == items_spelled(before, items, n - 1) + ",\n"@,
    ensures
        "\n"@ + more == items_spelled(before, items, n) + end,
{
    reveal_strlit(",\n");
    reveal_strlit(",");
    reveal_strlit("\n");
    let item = spelled(items[n - 1]);
    let inside = items_spelled(before, items, n - 1);
    if n == 1 {
        let none = Seq::<char>::empty();
        assert(inside == none);
        assert(items_spelled(before, items, n) == none + none + ("\n"@ + pad) + item);
        assert("\n"@ + (lines + (pad + item) + end) =~= none + none + ("\n"@ + pad) + item + end);
    } else {
        assert(items_spelled(before, items, n) == inside + ","@ + ("\n"@ + pad) + item);
        assert(",\n"@ =~= ","@ + "\n"@);
        assert("\n"@ + (lines + (pad + item) + end) =~= ("\n"@ + lines) + pad + item + end);
        assert((inside + (","@ + "\n"@)) + pad + item + end =~= inside + ","@ + ("\n"@ + pad)
            + item + end);
    }
}

proof fn lemma_fields_text(fields: Seq<FieldView>, n: int)
    requires
        1 <= n <= fields.len(),
    ensures
        "\n"@ + fields_text(fields, n) == items_spelled(
            breaks(fields.len(), "\n        "@),
            field_items(fields),
            n,
        ) + behind(n, fields.len()),
    decreases n,
{
    let before = breaks(fields.len(), "\n        "@);
    let items = field_items(fields);
    if n > 1 {
        lemma_fields_text(fields, n - 1);
    } else {
        assert(fields_text(fields, 0) == Seq::<char>::empty());
    }
    reveal_strlit("\n        ");
    reveal_strlit("        ");
    reveal_strlit("\n");
    assert("\n        "@ =~= "\n"@ + "        "@);
    lemma_field_text(fields[n - 1]);
    lemma_next_item(
        before,
        items,
        n,
        field_text(fields[n - 1]),
        "        "@,
        fields_text(fields, n - 1),
        fields_text(fields, n),
        behind(n, fields.len()),
    );
}

/// A list's text, with a line for each element.
proof fn lemma_list(
    before: Seq<Seq<char>>,
    items: Seq<Tree>,
    tail: Seq<char>,
    lines: Seq<char>,
    pad: Seq<char>,
)
    requires
        tail == "\n"@ + pad,
        items.len() == 0 ==> lines.len() == 0,
        items.len() > 0 ==> "\n"@ + lines == items_spelled(before, items, items.len() as int)
            + "\n"@,
    ensures
        "["@ + "\n"@ + lines + (pad + "]"@) == spelled(Tree::List { before, items, tail }),
{
    let inside = items_spelled(before, items, items.len() as int);
    if items.len() == 0 {
        assert("["@ + "\n"@ + lines + (pad + "]"@) =~= "["@ + inside + ("\n"@ + pad) + "]"@);
    } else {
        assert("["@ + "\n"@ + lines + (pad + "]"@) =~= "["@ + ("\n"@ + lines) + pad + "]"@);
        assert("["@ + (inside + "\n"@) + pad + "]"@ =~= "["@ + inside + ("\n"@ + pad) + "]"@);
    }
}

/// An entry of a class, on a line of its own.
pub open spec fn in_class(key: Seq<char>) -> Lead {
    Lead { before: "\n      "@, key, gap: " "@ }
}

/// A class, as a document.
pub open spec fn class_tree(class: ClassView) -> Tree {
    Tree::Object {
        leads: seq![
            in_class("image"@),
            in_class("namespace"@),
            in_class("name"@),
            in_class("fields"@),
        ],
        values: seq![
            Tree::Text(class.image),
            Tree::Text(class.namespace),
            Tree::Text(class.name),
            fields_tree(class.fields),
        ],
        tail: "\n    "@,
    }
}

/// The keys of a class stand in its text as its document has them.
proof fn lemma_class_keys()
    ensures
        "    {\n      \"image\": "@ == "    "@ + "{"@ + in_class("image"@).spelled(),
        ",\n      \"namespace\": "@ == ","@ + in_class("namespace"@).spelled(),
        ",\n      \"name\": "@ == ","@ + in_class("name"@).spelled(),
        ",\n      \"fields\": []\n"@ == ","@ + in_class("fields"@).spelled() + ("["@ + "]"@)
            + "\n"@,
        ",\n      \"fields\": [\n"@ == ","@ + in_class("fields"@).spelled() + ("["@ + "\n"@),
        "      ]\n"@ == "      "@ + "]"@ + "\n"@,
        "\n"@ + "    }"@ == "\n    "@ + "}"@,
        "\n      "@ == "\n"@ + "      "@,
{
    reveal_strlit("    {\n      \"image\": ");
    reveal_strlit(",\n      \"namespace\": ");
    reveal_strlit(",\n      \"name\": ");
    reveal_strlit(",\n      \"fields\": []\n");
    reveal_strlit(",\n      \"fields\": [\n");
    reveal_strlit("      ]\n");
    reveal_strlit("    }");
    reveal_strlit("\n    ");
    reveal_strlit("\n      ");
    reveal_strlit("      ");
    reveal_strlit("    ");
    reveal_strlit("\n");
    reveal_strlit("{");
    reveal_strlit("}");
    reveal_strlit("[");
    reveal_strlit("]");
    reveal_strlit(" ");
    reveal_strlit(",");
    reveal_strlit(":");
    reveal_strlit("image");
    reveal_strlit("namespace");
    reveal_strlit("name");
    reveal_strlit("fields");
    lemma_clean("image"@);
    lemma_clean("namespace"@);
    lemma_clean("name"@);
    lemma_clean("fields"@);
    assert("    {\n      \"image\": "@ =~= "    "@ + "{"@ + in_class("image"@).spelled());
    assert(",\n      \"namespace\": "@ =~= ","@ + in_class("namespace"@).spelled());
    assert(",\n      \"name\": "@ =~= ","@ + in_class("name"@).spelled());
    assert(",\n      \"fields\": []\n"@ =~= ","@ + in_class("fields"@).spelled() + ("["@ + "]"@)
        + "\n"@);
    assert(",\n      \"fields\": [\n"@ =~= ","@ + in_class("fields"@).spelled() + ("["@ + "\n"@));
    assert("      ]\n"@ =~= "      "@ + "]"@ + "\n"@);
    assert("\n"@ + "    }"@ =~= "\n    "@ + "}"@);
    assert("\n      "@ =~= "\n"@ + "      "@);
}

/// What a class's text says of its fields.
spec fn fields_part(class: ClassView) -> Seq<char> {
    if class.fields.len() == 0 {
        ",\n      \"fields\": []\n"@
    } else {
        ",\n      \"fields\": [\n"@ + fields_text(class.fields, class.fields.len() as int)
            + "      ]\n"@
    }
}

proof fn lemma_fields_part(class: ClassView)
    ensures
        fields_part(class) == ","@ + in_class("fields"@).spelled() + spelled(
            fields_tree(class.fields),
        ) + "\n"@,
{
    lemma_class_keys();
    let lead = ","@ + in_class("fields"@).spelled();
    let fields = class.fields;
    let before = breaks(fields.len(), "\n        "@);
    let items = field_items(fields);
    if fields.len() == 0 {
        let none = Seq::<char>::empty();
        assert(items_spelled(before, items, 0) == none);
        assert("["@ + none + none + "]"@ =~= "["@ + "]"@);
    } else {
        let lines = fields_text(fields, fields.len() as int);
        lemma_fields_text(fields, fields.len() as int);
        lemma_list(before, items, "\n      "@, lines, "      "@);
        let open = "["@ + "\n"@;
        let close = "      "@ + "]"@;
        assert((lead + open) + lines + (close + "\n"@) =~= lead + (open + lines + close) + "\n"@);
    }
}

/// The last entry, taken out of what stands around it.
proof fn lemma_last_out(
    front: Seq<char>,
    lead: Seq<char>,
    list: Seq<char>,
    end: Seq<char>,
    close: Seq<char>,
)
    ensures
        front + (lead + list + end) + close == front + lead + list + (end + close),
{
    assert(front + (lead + list + end) + close =~= front + lead + list + (end + close));
}

/// A class's text is that of its document.
proof fn lemma_class_text(class: ClassView)
    ensures
        class_text(class) == "    "@ + spelled(class_tree(class)),
{
    lemma_class_keys();
    lemma_fields_part(class);
    let tree = class_tree(class);
    let leads = tree->leads;
    let values = tree->values;
    let pad = "    "@;
    let front = pad + "{"@;
    let list = spelled(fields_tree(class.fields));
    assert(values[0] == Tree::Text(class.image));
    lemma_first_entry(leads, values, front, in_class("image"@), quoted(class.image));
    assert(values[1] == Tree::Text(class.namespace));
    lemma_next_entry(leads, values, 2, front, in_class("namespace"@), quoted(class.namespace));
    assert(values[2] == Tree::Text(class.name));
    lemma_next_entry(leads, values, 3, front, in_class("name"@), quoted(class.name));
    assert(values[3] == fields_tree(class.fields));
    lemma_next_entry(leads, values, 4, front, in_class("fields"@), list);
    lemma_object(pad, leads, values, "\n    "@);
    let three = front + entries_spelled(leads, values, 3);
    let lead = ","@ + in_class("fields"@).spelled();
    lemma_last_out(three, lead, list, "\n"@, "    }"@);
}

/// Classes, as the elements of a list.
pub open spec fn class_items(classes: Seq<ClassView>) -> Seq<Tree> {
    classes.map_values(|class: ClassView| class_tree(class))
}

/// A fixture's classes, as a list.
pub open spec fn classes_tree(classes: Seq<ClassView>) -> Tree {
    Tree::List {
        before: breaks(classes.len(), "\n    "@),
        items: class_items(classes),
        tail: "\n  "@,
    }
}

proof fn lemma_classes_text(classes: Seq<ClassView>, n: int)
    requires
        1 <= n <= classes.len(),
    ensures
        "\n"@ + classes_text(classes, n) == items_spelled(
            breaks(classes.len(), "\n    "@),
            class_items(classes),
            n,
        ) + behind(n, classes.len()),
    decreases n,
{
    let before = breaks(classes.len(), "\n    "@);
    let items = class_items(classes);
    if n > 1 {
        lemma_classes_text(classes, n - 1);
    } else {
        assert(classes_text(classes, 0) == Seq::<char>::empty());
    }
    reveal_strlit("\n    ");
    reveal_strlit("    ");
    reveal_strlit("\n");
    assert("\n    "@ =~= "\n"@ + "    "@);
    lemma_class_text(classes[n - 1]);
    lemma_next_item(
        before,
        items,
        n,
        class_text(classes[n - 1]),
        "    "@,
        classes_text(classes, n - 1),
        classes_text(classes, n),
        behind(n, classes.len()),
    );
}

/// An entry of a fixture, on a line of its own.
pub open spec fn in_fixture(key: Seq<char>) -> Lead {
    Lead { before: "\n  "@, key, gap: " "@ }
}

/// An entry of a fixture's sources, on a line of its own.
pub open spec fn in_sources(key: Seq<char>) -> Lead {
    Lead { before: "\n    "@, key, gap: " "@ }
}

/// Where a fixture's two halves came from, as a document.
pub open spec fn sources_tree(fixture: FixtureView) -> Tree {
    Tree::Object {
        leads: seq![in_sources("snapshot"@), in_sources("managed"@)],
        values: seq![Tree::Text(fixture.snapshot), Tree::Text(fixture.managed)],
        tail: "\n  "@,
    }
}

/// A fixture, as a document.
pub open spec fn fixture_tree(fixture: FixtureView) -> Tree {
    match fixture.build_id {
        Some(build_id) => Tree::Object {
            leads: seq![
                in_fixture("format"@),
                in_fixture("game_version"@),
                in_fixture("build_id"@),
                in_fixture("sources"@),
                in_fixture("classes"@),
            ],
            values: seq![
                Tree::Number(FORMAT),
                Tree::Text(fixture.game_version),
                Tree::Number(build_id),
                sources_tree(fixture),
                classes_tree(fixture.classes),
            ],
            tail: "\n"@,
        },
        None => Tree::Object {
            leads: seq![
                in_fixture("format"@),
                in_fixture("game_version"@),
                in_fixture("sources"@),
                in_fixture("classes"@),
            ],
            values: seq![
                Tree::Number(FORMAT),
                Tree::Text(fixture.game_version),
                sources_tree(fixture),
                classes_tree(fixture.classes),
            ],
            tail: "\n"@,
        },
    }
}

/// The keys of a fixture stand in its text as its document has them.
proof fn lemma_fixture_keys()
    ensures
        "{\n  \"format\": "@ == "{"@ + in_fixture("format"@).spelled(),
        ",\n  \"game_version\": "@ == ","@ + in_fixture("game_version"@).spelled(),
        ",\n"@ + "  \"build_id\": "@ == ","@ + in_fixture("build_id"@).spelled(),
        ",\n"@ + "  \"sources\": {\n    \"snapshot\": "@ == ","@ + in_fixture(
            "sources"@,
        ).spelled() + ("{"@ + in_sources("snapshot"@).spelled()),
        ",\n    \"managed\": "@ == ","@ + in_sources("managed"@).spelled(),
        "\n  },\n  \"classes\": [\n"@ == ("\n  "@ + "}"@) + (","@ + in_fixture(
            "classes"@,
        ).spelled()) + ("["@ + "\n"@),
        "  ]\n}\n"@ == ("  "@ + "]"@) + ("\n"@ + "}"@) + "\n"@,
        "\n  "@ == "\n"@ + "  "@,
{
    reveal_strlit("{\n  \"format\": ");
    reveal_strlit(",\n  \"game_version\": ");
    reveal_strlit(",\n");
    reveal_strlit("  \"build_id\": ");
    reveal_strlit("  \"sources\": {\n    \"snapshot\": ");
    reveal_strlit(",\n    \"managed\": ");
    reveal_strlit("\n  },\n  \"classes\": [\n");
    reveal_strlit("  ]\n}\n");
    reveal_strlit("\n  ");
    reveal_strlit("\n    ");
    reveal_strlit("  ");
    reveal_strlit("\n");
    reveal_strlit("{");
    reveal_strlit("}");
    reveal_strlit("[");
    reveal_strlit("]");
    reveal_strlit(" ");
    reveal_strlit(",");
    reveal_strlit(":");
    reveal_strlit("format");
    reveal_strlit("game_version");
    reveal_strlit("build_id");
    reveal_strlit("sources");
    reveal_strlit("classes");
    reveal_strlit("snapshot");
    reveal_strlit("managed");
    lemma_clean("format"@);
    lemma_clean("game_version"@);
    lemma_clean("build_id"@);
    lemma_clean("sources"@);
    lemma_clean("classes"@);
    lemma_clean("snapshot"@);
    lemma_clean("managed"@);
    assert("{\n  \"format\": "@ =~= "{"@ + in_fixture("format"@).spelled());
    assert(",\n  \"game_version\": "@ =~= ","@ + in_fixture("game_version"@).spelled());
    assert(",\n"@ + "  \"build_id\": "@ =~= ","@ + in_fixture("build_id"@).spelled());
    assert(",\n"@ + "  \"sources\": {\n    \"snapshot\": "@ =~= ","@ + in_fixture(
        "sources"@,
    ).spelled() + ("{"@ + in_sources("snapshot"@).spelled()));
    assert(",\n    \"managed\": "@ =~= ","@ + in_sources("managed"@).spelled());
    assert("\n  },\n  \"classes\": [\n"@ =~= ("\n  "@ + "}"@) + (","@ + in_fixture(
        "classes"@,
    ).spelled()) + ("["@ + "\n"@));
    assert("  ]\n}\n"@ =~= ("  "@ + "]"@) + ("\n"@ + "}"@) + "\n"@);
    assert("\n  "@ =~= "\n"@ + "  "@);
}

proof fn lemma_sources_text(fixture: FixtureView)
    ensures
        "{"@ + in_sources("snapshot"@).spelled() + quoted(fixture.snapshot) + (","@ + in_sources(
            "managed"@,
        ).spelled()) + quoted(fixture.managed) + ("\n  "@ + "}"@) == spelled(
            sources_tree(fixture),
        ),
{
    let tree = sources_tree(fixture);
    let leads = tree->leads;
    let values = tree->values;
    let none = Seq::<char>::empty();
    let front = none + "{"@;
    assert(front =~= "{"@);
    assert(values[0] == Tree::Text(fixture.snapshot));
    lemma_first_entry(leads, values, front, in_sources("snapshot"@), quoted(fixture.snapshot));
    assert(values[1] == Tree::Text(fixture.managed));
    lemma_next_entry(leads, values, 2, front, in_sources("managed"@), quoted(fixture.managed));
    lemma_object(none, leads, values, "\n  "@);
    assert(none + spelled(tree) =~= spelled(tree));
}

/// The sources, taken out of what stands around them.
proof fn lemma_sources_out(
    front: Seq<char>,
    lead: Seq<char>,
    open: Seq<char>,
    one: Seq<char>,
    second: Seq<char>,
    two: Seq<char>,
    close: Seq<char>,
    next: Seq<char>,
    list: Seq<char>,
)
    ensures
        front + (lead + open) + one + second + two + (close + next + list) == front + lead + (open
            + one + second + two + close) + next + list,
{
    assert(front + (lead + open) + one + second + two + (close + next + list) =~= front + lead + (
    open + one + second + two + close) + next + list);
}

/// The classes, taken out of what stands around them.
proof fn lemma_classes_out(
    front: Seq<char>,
    open: Seq<char>,
    lines: Seq<char>,
    close: Seq<char>,
    end: Seq<char>,
    rest: Seq<char>,
)
    ensures
        front + open + lines + (close + end + rest) == front + (open + lines + close) + end + rest,
{
    assert(front + open + lines + (close + end + rest) =~= front + (open + lines + close) + end
        + rest);
}

/// The build id, or what stands in its place.
proof fn lemma_build_id(
    front: Seq<char>,
    comma: Seq<char>,
    lead: Seq<char>,
    id: Seq<char>,
    next: Seq<char>,
)
    ensures
        front + comma + (lead + id + comma) + next == front + (comma + lead) + id + (comma + next),
        front + comma + Seq::<char>::empty() + next == front + (comma + next),
{
    assert(front + comma + (lead + id + comma) + next =~= front + (comma + lead) + id + (comma
        + next));
    assert(front + comma + Seq::<char>::empty() + next =~= front + (comma + next));
}

/// A fixture's text is that of its document, with a line's end behind it.
proof fn lemma_fixture_text(fixture: FixtureView)
    ensures
        fixture_text(fixture) == spelled(fixture_tree(fixture)) + "\n"@,
{
    lemma_fixture_keys();
    lemma_sources_text(fixture);
    let tree = fixture_tree(fixture);
    let leads = tree->leads;
    let values = tree->values;
    let none = Seq::<char>::empty();
    let front = none + "{"@;
    assert(front =~= "{"@);
    let classes = fixture.classes;
    let lines = classes_text(classes, classes.len() as int);
    if classes.len() > 0 {
        lemma_classes_text(classes, classes.len() as int);
    }
    lemma_list(
        breaks(classes.len(), "\n    "@),
        class_items(classes),
        "\n  "@,
        lines,
        "  "@,
    );
    let list = spelled(classes_tree(classes));
    let sources = spelled(sources_tree(fixture));
    let format = decimal_text(FORMAT as int);
    assert(values[0] == Tree::Number(FORMAT));
    lemma_first_entry(leads, values, front, in_fixture("format"@), format);
    assert(values[1] == Tree::Text(fixture.game_version));
    lemma_next_entry(
        leads,
        values,
        2,
        front,
        in_fixture("game_version"@),
        quoted(fixture.game_version),
    );
    let two = front + entries_spelled(leads, values, 2);
    let comma = ",\n"@;
    let build = "  \"build_id\": "@;
    let source = "  \"sources\": {\n    \"snapshot\": "@;
    let n: int = match fixture.build_id {
        Some(build_id) => {
            let id = decimal_text(build_id as int);
            assert(values[2] == Tree::Number(build_id));
            lemma_next_entry(leads, values, 3, front, in_fixture("build_id"@), id);
            lemma_build_id(two, comma, build, id, source);
            3
        },
        None => {
            lemma_build_id(two, comma, build, none, source);
            2
        },
    };
    let before = front + entries_spelled(leads, values, n);
    assert(values[n] == sources_tree(fixture));
    assert(leads[n] == in_fixture("sources"@));
    lemma_next_entry(leads, values, n + 1, front, in_fixture("sources"@), sources);
    assert(values[n + 1] == classes_tree(classes));
    assert(leads[n + 1] == in_fixture("classes"@));
    lemma_next_entry(leads, values, n + 2, front, in_fixture("classes"@), list);
    lemma_object(none, leads, values, "\n"@);
    assert(none + spelled(tree) =~= spelled(tree));
    lemma_sources_out(
        before,
        ","@ + in_fixture("sources"@).spelled(),
        "{"@ + in_sources("snapshot"@).spelled(),
        quoted(fixture.snapshot),
        ","@ + in_sources("managed"@).spelled(),
        quoted(fixture.managed),
        "\n  "@ + "}"@,
        ","@ + in_fixture("classes"@).spelled(),
        "["@ + "\n"@,
    );
    let after = before + (","@ + in_fixture("sources"@).spelled()) + sources;
    lemma_classes_out(
        after + (","@ + in_fixture("classes"@).spelled()),
        "["@ + "\n"@,
        lines,
        "  "@ + "]"@,
        "\n"@ + "}"@,
        "\n"@,
    );
}

/// What is written between the values of a fixture is white space.
proof fn lemma_blanks()
    ensures
        is_blank(Seq::empty()),
        is_blank(" "@),
        is_blank("\n"@),
        is_blank("\n  "@),
        is_blank("\n    "@),
        is_blank("\n      "@),
        is_blank("\n        "@),
{
    reveal_strlit(" ");
    reveal_strlit("\n");
    reveal_strlit("\n  ");
    reveal_strlit("\n    ");
    reveal_strlit("\n      ");
    reveal_strlit("\n        ");
}

proof fn lemma_field_names()
    ensures
        is_simple("name"@),
        is_simple("requested"@),
        is_simple("type"@),
        is_simple("static"@),
        is_simple("offset"@),
        "name"@ != "requested"@,
        "name"@ != "type"@,
        "name"@ != "static"@,
        "name"@ != "offset"@,
        "requested"@ != "type"@,
        "requested"@ != "static"@,
        "requested"@ != "offset"@,
        "type"@ != "static"@,
        "type"@ != "offset"@,
        "static"@ != "offset"@,
{
    reveal_strlit("name");
    reveal_strlit("requested");
    reveal_strlit("type");
    reveal_strlit("static");
    reveal_strlit("offset");
    assert("name"@.len() == 4);
    assert("requested"@.len() == 9);
    assert("type"@.len() == 4);
    assert("static"@.len() == 6);
    assert("offset"@.len() == 6);
    assert("name"@[0] != "type"@[0]);
    assert("static"@[0] != "offset"@[0]);
}

proof fn lemma_class_names()
    ensures
        is_simple("image"@),
        is_simple("namespace"@),
        is_simple("name"@),
        is_simple("fields"@),
        "image"@ != "namespace"@,
        "image"@ != "name"@,
        "image"@ != "fields"@,
        "namespace"@ != "name"@,
        "namespace"@ != "fields"@,
        "name"@ != "fields"@,
{
    reveal_strlit("image");
    reveal_strlit("namespace");
    reveal_strlit("name");
    reveal_strlit("fields");
    assert("image"@.len() == 5);
    assert("namespace"@.len() == 9);
    assert("name"@.len() == 4);
    assert("fields"@.len() == 6);
}

proof fn lemma_fixture_names()
    ensures
        is_simple("format"@),
        is_simple("game_version"@),
        is_simple("build_id"@),
        is_simple("sources"@),
        is_simple("classes"@),
        is_simple("snapshot"@),
        is_simple("managed"@),
        "format"@ != "game_version"@,
        "format"@ != "build_id"@,
        "format"@ != "sources"@,
        "format"@ != "classes"@,
        "game_version"@ != "build_id"@,
        "game_version"@ != "sources"@,
        "game_version"@ != "classes"@,
        "build_id"@ != "sources"@,
        "build_id"@ != "classes"@,
        "sources"@ != "classes"@,
        "snapshot"@ != "managed"@,
{
    reveal_strlit("format");
    reveal_strlit("game_version");
    reveal_strlit("build_id");
    reveal_strlit("sources");
    reveal_strlit("classes");
    reveal_strlit("snapshot");
    reveal_strlit("managed");
    assert("format"@.len() == 6);
    assert("game_version"@.len() == 12);
    assert("build_id"@.len() == 8);
    assert("sources"@.len() == 7);
    assert("classes"@.len() == 7);
    assert("snapshot"@.len() == 8);
    assert("managed"@.len() == 7);
    assert("sources"@[0] != "classes"@[0]);
}

proof fn lemma_field_plain(field: FieldView, depth: nat)
    requires
        depth > 0,
    ensures
        is_plain(field_tree(field), depth),
{
    lemma_blanks();
    lemma_field_names();
    let tree = field_tree(field);
    let values = tree->values;
    assert forall|i: int| 0 <= i < values.len() implies is_plain(
        #[trigger] values[i],
        (depth - 1) as nat,
    ) by {
        assert(values[i] !is List && values[i] !is Object);
    }
}

proof fn lemma_class_plain(class: ClassView, depth: nat)
    requires
        depth > 2,
    ensures
        is_plain(class_tree(class), depth),
{
    lemma_blanks();
    lemma_class_names();
    let values = class_tree(class)->values;
    let list = fields_tree(class.fields);
    let items = list->items;
    assert forall|i: int| 0 <= i < items.len() implies is_plain(
        #[trigger] items[i],
        (depth - 2) as nat,
    ) by {
        lemma_field_plain(class.fields[i], (depth - 2) as nat);
    }
    assert(is_plain(list, (depth - 1) as nat));
    assert forall|i: int| 0 <= i < values.len() implies is_plain(
        #[trigger] values[i],
        (depth - 1) as nat,
    ) by {
        if i < 3 {
            assert(values[i] is Text);
        }
    }
}

proof fn lemma_fixture_plain(fixture: FixtureView, depth: nat)
    requires
        depth > 4,
    ensures
        is_plain(fixture_tree(fixture), depth),
{
    lemma_blanks();
    lemma_fixture_names();
    let values = fixture_tree(fixture)->values;
    let list = classes_tree(fixture.classes);
    let items = list->items;
    assert forall|i: int| 0 <= i < items.len() implies is_plain(
        #[trigger] items[i],
        (depth - 2) as nat,
    ) by {
        lemma_class_plain(fixture.classes[i], (depth - 2) as nat);
    }
    assert(is_plain(list, (depth - 1) as nat));
    let sources = sources_tree(fixture);
    let texts = sources->values;
    assert forall|i: int| 0 <= i < texts.len() implies is_plain(
        #[trigger] texts[i],
        (depth - 2) as nat,
    ) by {
        assert(texts[i] is Text);
    }
    assert(is_plain(sources, (depth - 1) as nat));
    assert forall|i: int| 0 <= i < values.len() implies is_plain(
        #[trigger] values[i],
        (depth - 1) as nat,
    ) by {
        if i < values.len() - 2 {
            assert(values[i] !is List && values[i] !is Object);
        }
    }
}

/// A field reads back out of its document.
proof fn lemma_field_back(doc: Doc, at: Seq<char>, field: FieldView, whose: Seq<char>)
    requires
        holds(doc, at, field_tree(field)),
    ensures
        field_in(doc, at, whose) == Ok::<FieldView, FaultView>(field),
{
    lemma_field_names();
    let tree = field_tree(field);
    let leads = tree->leads;
    let values = tree->values;
    assert(values[0] == Tree::Text(field.name));
    assert(holds(doc, under(at, leads[0].key), values[0]));
    let n: int = match field.requested {
        Some(requested) => {
            assert(values[1] == Tree::Text(requested));
            assert(holds(doc, under(at, leads[1].key), values[1]));
            2
        },
        None => {
            assert(leaf_at(doc, under(at, "requested"@)) is None);
            1
        },
    };
    assert(values[n] == Tree::Text(field.declared_type));
    assert(holds(doc, under(at, leads[n].key), values[n]));
    assert(values[n + 1] == Tree::Bool(field.is_static));
    assert(holds(doc, under(at, leads[n + 1].key), values[n + 1]));
    assert(values[n + 2] == Tree::Number(field.offset as u64));
    assert(holds(doc, under(at, leads[n + 2].key), values[n + 2]));
}

proof fn lemma_fields_back(
    doc: Doc,
    base: Seq<char>,
    fields: Seq<FieldView>,
    whose: Seq<char>,
    n: nat,
)
    requires
        n <= fields.len(),
        holds(doc, base, fields_tree(fields)),
    ensures
        fields_in(doc, base, whose, n) == Ok::<Seq<FieldView>, FaultView>(fields.take(n as int)),
    decreases n,
{
    if n == 0 {
        assert(fields.take(0) =~= Seq::<FieldView>::empty());
    } else {
        lemma_fields_back(doc, base, fields, whose, (n - 1) as nat);
        let items = fields_tree(fields)->items;
        assert(items[n - 1] == field_tree(fields[n - 1]));
        assert(holds(doc, element(base, n - 1), items[n - 1]));
        lemma_field_back(doc, element(base, n - 1), fields[n - 1], whose);
        assert(fields.take(n - 1).push(fields[n - 1]) =~= fields.take(n as int));
    }
}

/// A class reads back out of its document.
proof fn lemma_class_back(doc: Doc, at: Seq<char>, class: ClassView, index: int)
    requires
        holds(doc, at, class_tree(class)),
    ensures
        class_in(doc, at, index) == Ok::<ClassView, FaultView>(class),
{
    let tree = class_tree(class);
    let leads = tree->leads;
    let values = tree->values;
    let fields = class.fields;
    assert(values[0] == Tree::Text(class.image));
    assert(holds(doc, under(at, leads[0].key), values[0]));
    assert(values[1] == Tree::Text(class.namespace));
    assert(holds(doc, under(at, leads[1].key), values[1]));
    assert(values[2] == Tree::Text(class.name));
    assert(holds(doc, under(at, leads[2].key), values[2]));
    assert(values[3] == fields_tree(fields));
    assert(holds(doc, under(at, leads[3].key), values[3]));
    lemma_fields_back(
        doc,
        under(at, "fields"@),
        fields,
        class.image + "/"@ + class.name,
        fields.len(),
    );
    assert(fields.take(fields.len() as int) =~= fields);
}

proof fn lemma_classes_back(doc: Doc, base: Seq<char>, classes: Seq<ClassView>, n: nat)
    requires
        n <= classes.len(),
        holds(doc, base, classes_tree(classes)),
    ensures
        classes_in(doc, base, n) == Ok::<Seq<ClassView>, FaultView>(classes.take(n as int)),
    decreases n,
{
    if n == 0 {
        assert(classes.take(0) =~= Seq::<ClassView>::empty());
    } else {
        lemma_classes_back(doc, base, classes, (n - 1) as nat);
        let items = classes_tree(classes)->items;
        assert(items[n - 1] == class_tree(classes[n - 1]));
        assert(holds(doc, element(base, n - 1), items[n - 1]));
        lemma_class_back(doc, element(base, n - 1), classes[n - 1], n - 1);
        assert(classes.take(n - 1).push(classes[n - 1]) =~= classes.take(n as int));
    }
}

/// A fixture reads back out of its document.
proof fn lemma_fixture_back(doc: Doc, fixture: FixtureView)
    requires
        holds(doc, Seq::empty(), fixture_tree(fixture)),
    ensures
        fixture_in(doc) == Ok::<FixtureView, FaultView>(fixture),
{
    lemma_fixture_names();
    let at = Seq::<char>::empty();
    let tree = fixture_tree(fixture);
    let leads = tree->leads;
    let values = tree->values;
    let classes = fixture.classes;
    assert(values[0] == Tree::Number(FORMAT));
    assert(holds(doc, under(at, leads[0].key), values[0]));
    assert(values[1] == Tree::Text(fixture.game_version));
    assert(holds(doc, under(at, leads[1].key), values[1]));
    let n: int = match fixture.build_id {
        Some(build_id) => {
            assert(values[2] == Tree::Number(build_id));
            assert(holds(doc, under(at, leads[2].key), values[2]));
            3
        },
        None => {
            assert(leaf_at(doc, under(at, "build_id"@)) is None);
            2
        },
    };
    let sources = sources_tree(fixture);
    assert(values[n] == sources);
    assert(holds(doc, under(at, leads[n].key), values[n]));
    assert(sources->values[0] == Tree::Text(fixture.snapshot));
    assert(holds(doc, under(under(at, "sources"@), sources->leads[0].key), sources->values[0]));
    assert(sources->values[1] == Tree::Text(fixture.managed));
    assert(holds(doc, under(under(at, "sources"@), sources->leads[1].key), sources->values[1]));
    assert(values[n + 1] == classes_tree(classes));
    assert(holds(doc, under(at, leads[n + 1].key), values[n + 1]));
    lemma_classes_back(doc, under(at, "classes"@), classes, classes.len());
    assert(classes.take(classes.len() as int) =~= classes);
}

/// What is written of a fixture reads back as that fixture.
pub(crate) proof fn lemma_reads_back(
    text: Seq<char>,
    result: Result<serde_json::Value, String>,
    fixture: FixtureView,
)
    requires
        understands(text, result),
        fixture_text(fixture) == text,
    ensures
        result matches Ok(value) && fixture_in(held(value)) == Ok::<FixtureView, FaultView>(
            fixture,
        ),
{
    let tree = fixture_tree(fixture);
    lemma_fixture_text(fixture);
    lemma_fixture_plain(fixture, 100);
    lemma_blanks();
    assert(spelled(tree) + "\n"@ == text);
    lemma_fixture_back(held(result->Ok_0), fixture);
}

} // verus!
