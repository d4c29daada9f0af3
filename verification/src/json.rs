//! JSON, through `serde_json`.
//!
//! A document is read by asking for what stands at a JSON pointer
//! (`/classes/0/name`), and written by quoting texts.
use vstd::prelude::*;

use crate::text::{decimal_text, digit_char};

verus! {

/// `serde_json::Value`: a JSON document.
#[verifier::external_type_specification]
#[verifier::external_body]
pub struct ExValue(serde_json::Value);

/// What stands at a place in a document.
pub enum Leaf {
    Null,
    Bool(bool),
    /// A number, where it is a whole one that fits.
    Number(Option<u64>),
    Text(String),
    /// An array of this many elements.
    Array(usize),
    Object,
}

/// What a [`Leaf`] says.
pub enum LeafView {
    Null,
    Bool(bool),
    Number(Option<u64>),
    Text(Seq<char>),
    Array(nat),
    Object,
}

impl View for Leaf {
    type V = LeafView;

    open spec fn view(&self) -> LeafView {
        match self {
            Leaf::Null => LeafView::Null,
            Leaf::Bool(value) => LeafView::Bool(*value),
            Leaf::Number(value) => LeafView::Number(*value),
            Leaf::Text(text) => LeafView::Text(text@),
            Leaf::Array(len) => LeafView::Array(*len as nat),
            Leaf::Object => LeafView::Object,
        }
    }
}

/// What a document holds: what stands at each JSON pointer that leads anywhere.
pub uninterp spec fn held(value: serde_json::Value) -> Map<Seq<char>, LeafView>;

/// What `serde_json::from_str` makes of a text: the contents of the document, or
/// nothing where the text is not one.
pub uninterp spec fn document(text: Seq<char>) -> Option<Map<Seq<char>, LeafView>>;

/// What `serde_json::Error` says, displayed, of a text that is not a document.
pub uninterp spec fn complaint(text: Seq<char>) -> Seq<char>;

/// What stands at `pointer`.
pub open spec fn leaf_at(document: Map<Seq<char>, LeafView>, pointer: Seq<char>) -> Option<
    LeafView,
> {
    if document.dom().contains(pointer) {
        Some(document[pointer])
    } else {
        None
    }
}

/// The pointer to an entry of what stands at `base`.
pub open spec fn under(base: Seq<char>, key: Seq<char>) -> Seq<char> {
    base + "/"@ + key
}

/// The pointer to an element of what stands at `base`.
pub open spec fn element(base: Seq<char>, index: int) -> Seq<char> {
    base + "/"@ + decimal_text(index)
}

/// How a character is written inside a JSON string.
pub open spec fn escaped(c: char) -> Seq<char> {
    if c == '"' {
        seq!['\\', '"']
    } else if c == '\\' {
        seq!['\\', '\\']
    } else if c as u32 == 0x08 {
        seq!['\\', 'b']
    } else if c as u32 == 0x09 {
        seq!['\\', 't']
    } else if c as u32 == 0x0A {
        seq!['\\', 'n']
    } else if c as u32 == 0x0C {
        seq!['\\', 'f']
    } else if c as u32 == 0x0D {
        seq!['\\', 'r']
    } else if (c as u32) < 0x20 {
        seq![
            '\\',
            'u',
            '0',
            '0',
            digit_char((c as u32 / 16) as int),
            digit_char((c as u32 % 16) as int),
        ]
    } else {
        seq![c]
    }
}

/// A text as it is written inside a JSON string.
pub open spec fn escaped_all(text: Seq<char>) -> Seq<char>
    decreases text.len(),
{
    if text.len() == 0 {
        Seq::empty()
    } else {
        escaped_all(text.drop_last()) + escaped(text.last())
    }
}

/// A text as a JSON string.
pub open spec fn quoted(text: Seq<char>) -> Seq<char> {
    seq!['"'] + escaped_all(text) + seq!['"']
}

/// What stands in front of the value of an entry: white space, the key, and more
/// white space behind the colon.
pub struct Lead {
    pub before: Seq<char>,
    pub key: Seq<char>,
    pub gap: Seq<char>,
}

impl Lead {
    pub open spec fn spelled(self) -> Seq<char> {
        self.before + quoted(self.key) + ":"@ + self.gap
    }
}

/// A document as it is written, with the white space in it: in front of each
/// element or entry, and in front of the closing bracket.
pub enum Tree {
    Bool(bool),
    Number(u64),
    Text(Seq<char>),
    List { before: Seq<Seq<char>>, items: Seq<Tree>, tail: Seq<char> },
    Object { leads: Seq<Lead>, values: Seq<Tree>, tail: Seq<char> },
}

/// The text of a document.
pub open spec fn spelled(tree: Tree) -> Seq<char>
    decreases tree, 0int,
{
    match tree {
        Tree::Bool(value) => if value {
            "true"@
        } else {
            "false"@
        },
        Tree::Number(value) => decimal_text(value as int),
        Tree::Text(text) => quoted(text),
        Tree::List { before, items, tail } => "["@ + items_spelled(before, items, items.len() as int)
            + tail + "]"@,
        Tree::Object { leads, values, tail } => "{"@ + entries_spelled(
            leads,
            values,
            values.len() as int,
        ) + tail + "}"@,
    }
}

/// The text of the first `n` elements, with commas between them.
pub open spec fn items_spelled(before: Seq<Seq<char>>, items: Seq<Tree>, n: int) -> Seq<char>
    decreases items, n,
{
    if n <= 0 || n > items.len() {
        Seq::empty()
    } else {
        items_spelled(before, items, n - 1) + (if n == 1 {
            Seq::empty()
        } else {
            ","@
        }) + before[n - 1] + spelled(items[n - 1])
    }
}

/// The text of the first `n` entries, with commas between them.
pub open spec fn entries_spelled(leads: Seq<Lead>, values: Seq<Tree>, n: int) -> Seq<char>
    decreases values, n,
{
    if n <= 0 || n > values.len() {
        Seq::empty()
    } else {
        entries_spelled(leads, values, n - 1) + (if n == 1 {
            Seq::empty()
        } else {
            ","@
        }) + leads[n - 1].spelled() + spelled(values[n - 1])
    }
}

/// White space, as JSON has it.
pub open spec fn is_blank(text: Seq<char>) -> bool {
    forall|i: int|
        0 <= i < text.len() ==> {
            let c = #[trigger] text[i];
            c == ' ' || c == '\n' || c == '\r' || c == '\t'
        }
}

/// A key that stands in a pointer as it is.
pub open spec fn is_simple(key: Seq<char>) -> bool {
    forall|i: int| 0 <= i < key.len() ==> #[trigger] key[i] != '/' && key[i] != '~'
}

/// Whether what is between the values of a document is white space, no key comes
/// twice in one object, every key stands in a pointer as it is, and nothing is
/// deeper than `depth`.
pub open spec fn is_plain(tree: Tree, depth: nat) -> bool
    decreases tree,
{
    match tree {
        Tree::List { before, items, tail } => {
            &&& depth > 0
            &&& before.len() == items.len()
            &&& is_blank(tail)
            &&& forall|i: int| 0 <= i < items.len() ==> is_blank(#[trigger] before[i])
            &&& forall|i: int|
                0 <= i < items.len() ==> is_plain(#[trigger] items[i], (depth - 1) as nat)
        },
        Tree::Object { leads, values, tail } => {
            &&& depth > 0
            &&& leads.len() == values.len()
            &&& is_blank(tail)
            &&& forall|i: int|
                0 <= i < leads.len() ==> is_blank((#[trigger] leads[i]).before) && is_blank(
                    leads[i].gap,
                ) && is_simple(leads[i].key)
            &&& forall|i: int, j: int|
                0 <= i < j < leads.len() ==> (#[trigger] leads[i]).key != (#[trigger] leads[j]).key
            &&& forall|i: int|
                0 <= i < values.len() ==> is_plain(#[trigger] values[i], (depth - 1) as nat)
        },
        _ => true,
    }
}

/// Whether what a document holds at a pointer, and below it, is what a tree says.
pub open spec fn holds(doc: Map<Seq<char>, LeafView>, at: Seq<char>, tree: Tree) -> bool
    decreases tree,
{
    match tree {
        Tree::Bool(value) => leaf_at(doc, at) == Some(LeafView::Bool(value)),
        Tree::Number(value) => leaf_at(doc, at) == Some(LeafView::Number(Some(value))),
        Tree::Text(text) => leaf_at(doc, at) == Some(LeafView::Text(text)),
        Tree::List { before, items, tail } => {
            &&& leaf_at(doc, at) == Some(LeafView::Array(items.len()))
            &&& forall|i: int|
                0 <= i < items.len() ==> holds(doc, element(at, i), #[trigger] items[i])
        },
        Tree::Object { leads, values, tail } => {
            &&& leaf_at(doc, at) == Some(LeafView::Object)
            &&& forall|i: int|
                0 <= i < values.len() ==> holds(doc, under(at, leads[i].key), #[trigger] values[i])
            &&& forall|key: Seq<char>|
                is_simple(key) && (forall|i: int|
                    0 <= i < leads.len() ==> (#[trigger] leads[i]).key != key) ==> leaf_at(
                    doc,
                    #[trigger] under(at, key),
                ) is None
        },
    }
}

/// Whether what came of a text is what was written in it, where that is a plain
/// document and white space behind it. `serde_json` gives up on a document that
/// is nested deeper than 127 times: nothing is said of one deeper than 100.
pub open spec fn understands(
    text: Seq<char>,
    result: Result<serde_json::Value, String>,
) -> bool {
    forall|tree: Tree, rest: Seq<char>|
        is_plain(tree, 100) && is_blank(rest) && #[trigger] (spelled(tree) + rest) == text ==> (
        result matches Ok(value) && holds(held(value), Seq::empty(), tree))
}

/// `serde_json::from_str`, for a document of any shape, and where it fails the
/// text of its error: the same text always gives a document of the same contents,
/// or always none and the same complaint. Where the text is that of a plain
/// document, with nothing behind it but white space, that document is what comes
/// of it. Of any other text, and of how a complaint is worded, nothing more is
/// said.
#[verifier::external_body]
pub(crate) fn parse(text: &str) -> (result: Result<serde_json::Value, String>)
    ensures
        match result {
            Ok(value) => document(text@) == Some(held(value)),
            Err(reason) => document(text@) is None && reason@ == complaint(text@),
        },
        understands(text@, result),
{
    match serde_json::from_str(text) {
        Ok(value) => Ok(value),
        Err(error) => Err(error.to_string()),
    }
}

/// `serde_json::Value::pointer`, and for a number `serde_json::Number::as_u64`:
/// what stands at `pointer`, by the kind of value it is.
#[verifier::external_body]
pub(crate) fn look(value: &serde_json::Value, pointer: &str) -> (leaf: Option<Leaf>)
    ensures
        leaf is Some <==> leaf_at(held(*value), pointer@) is Some,
        leaf matches Some(l) ==> l@ == leaf_at(held(*value), pointer@)->0,
{
    Some(match value.pointer(pointer)? {
        serde_json::Value::Null => Leaf::Null,
        serde_json::Value::Bool(value) => Leaf::Bool(*value),
        serde_json::Value::Number(number) => Leaf::Number(number.as_u64()),
        serde_json::Value::String(text) => Leaf::Text(text.clone()),
        serde_json::Value::Array(elements) => Leaf::Array(elements.len()),
        serde_json::Value::Object(_) => Leaf::Object,
    })
}

/// `serde_json::Value::from` of a text, displayed: a JSON string, in which
/// quotes, backslashes and control characters are escaped and everything else
/// stands as it is.
#[verifier::external_body]
pub(crate) fn quote(text: &str) -> (json: String)
    ensures
        json@ == quoted(text@),
{
    serde_json::Value::from(text).to_string()
}

} // verus!
