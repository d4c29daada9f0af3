//! The facts a synthetic world is built from.
//!
//! A snapshot shows what the game's memory *was*; a fixture says what its layout
//! *is* -- class names, field names, declared types, and the offset Mono gave
//! each field. Facts rather than game bytes: a few hundred lines of JSON that
//! can be read in a diff, carrying nothing that could not be published.
//!
//! # What is deliberately not a fact
//!
//! Vtable addresses. Those are allocation results rather than layout: they
//! differ between two runs of the same build. The builder assigns its own and
//! keeps them consistent.
//!
//! # What a fixture flattens
//!
//! A field the splitter asks a class for may actually be declared on a parent. A
//! fixture records the *flattened* view -- every field on the class that answers
//! for it -- which is exactly the view the splitter consumes.
pub mod builder;
pub mod game;
pub mod mono;
pub mod pe;
pub mod region;
pub mod written;

use vstd::prelude::*;
use vstd::string::StringExecFns;

use crate::json::{
    complaint, document, element, held, leaf_at, look, parse, quote, quoted, under, Leaf, LeafView,
};
use crate::text::{
    chars_at, chars_of, comes_before, decimal_text, lemma_precedes, lemma_precedes_total, owned,
    precedes, push_decimal, same,
};

verus! {

/// The schema version of a fixture.
///
/// Bumped when an older file could be misread rather than merely be missing
/// something. [`Fixture::from_json`] refuses anything else, so a stale fixture
/// says so instead of building a subtly wrong world.
pub const FORMAT: u64 = 1;

/// Everything one game build's layout is.
pub struct Fixture {
    /// The game's own version string, as the snapshot manifest records it.
    pub game_version: String,
    /// Steam's build id for that version, when the snapshot knew it.
    pub build_id: Option<u64>,
    /// What the facts were read out of, for a reader asking "says who".
    pub sources: Sources,
    pub classes: Vec<ClassFacts>,
}

/// Where a fixture's two halves came from.
pub struct Sources {
    /// The snapshot the offsets were resolved against, by directory name.
    pub snapshot: String,
    /// The `Managed` directory the names and types were read out of.
    pub managed: String,
}

/// One class, and the fields of it the splitter depends on.
///
/// Not every field the class has: a fixture carries the set whose disappearance
/// would break something. A class with an empty field list is here because the
/// splitter validates an instance by finding the class at all. A class that has
/// no name of its own, as an inflated generic has not, has an empty image, and
/// goes by the path walked to reach one of its objects.
pub struct ClassFacts {
    /// Assembly name, as Mono knows it and as an image is looked up by.
    pub image: String,
    pub namespace: String,
    pub name: String,
    pub fields: Vec<FieldFacts>,
}

/// One field: what it is called, what it holds, and where it sits.
pub struct FieldFacts {
    /// The name Mono holds, which for an auto-property is the mangled
    /// `<Name>k__BackingField`.
    pub name: String,
    /// The name the splitter asks for, when it differs from `name`.
    pub requested: Option<String>,
    /// The declared type, rendered from the field's signature.
    pub declared_type: String,
    /// A static field's offset is from the start of the class's static table
    /// rather than from an instance.
    pub is_static: bool,
    pub offset: u32,
}

/// What a [`FieldFacts`] says.
pub struct FieldView {
    pub name: Seq<char>,
    pub requested: Option<Seq<char>>,
    pub declared_type: Seq<char>,
    pub is_static: bool,
    pub offset: u32,
}

/// What a [`ClassFacts`] says.
pub struct ClassView {
    pub image: Seq<char>,
    pub namespace: Seq<char>,
    pub name: Seq<char>,
    pub fields: Seq<FieldView>,
}

/// What a [`Fixture`] says.
pub struct FixtureView {
    pub game_version: Seq<char>,
    pub build_id: Option<u64>,
    pub snapshot: Seq<char>,
    pub managed: Seq<char>,
    pub classes: Seq<ClassView>,
}

impl View for FieldFacts {
    type V = FieldView;

    open spec fn view(&self) -> FieldView {
        FieldView {
            name: self.name@,
            requested: match self.requested {
                Some(name) => Some(name@),
                None => None,
            },
            declared_type: self.declared_type@,
            is_static: self.is_static,
            offset: self.offset,
        }
    }
}

/// What several fields say.
pub open spec fn field_views(fields: Seq<FieldFacts>) -> Seq<FieldView> {
    fields.map_values(|field: FieldFacts| field@)
}

/// What several classes say.
pub open spec fn class_views(classes: Seq<ClassFacts>) -> Seq<ClassView> {
    classes.map_values(|class: ClassFacts| class@)
}

impl View for ClassFacts {
    type V = ClassView;

    open spec fn view(&self) -> ClassView {
        ClassView {
            image: self.image@,
            namespace: self.namespace@,
            name: self.name@,
            fields: field_views(self.fields@),
        }
    }
}

impl View for Fixture {
    type V = FixtureView;

    open spec fn view(&self) -> FixtureView {
        FixtureView {
            game_version: self.game_version@,
            build_id: self.build_id,
            snapshot: self.sources.snapshot@,
            managed: self.sources.managed@,
            classes: class_views(self.classes@),
        }
    }
}

impl FieldView {
    /// The name the splitter asks for, mangled or not.
    pub open spec fn asked_for(self) -> Seq<char> {
        match self.requested {
            Some(name) => name,
            None => self.name,
        }
    }

    /// Whether the field goes by `name`.
    pub open spec fn goes_by(self, name: Seq<char>) -> bool {
        self.name == name || self.asked_for() == name
    }
}

impl FieldFacts {
    /// The name the splitter asks for, mangled or not.
    pub fn requested_name(&self) -> (name: &str)
        ensures
            name@ == self@.asked_for(),
    {
        match &self.requested {
            Some(name) => name.as_str(),
            None => self.name.as_str(),
        }
    }
}

/// The first field, from `i` on, that goes by `name`.
pub open spec fn field_from(fields: Seq<FieldFacts>, name: Seq<char>, i: int) -> Option<FieldFacts>
    decreases fields.len() - i,
{
    if i >= fields.len() {
        None
    } else if fields[i]@.goes_by(name) {
        Some(fields[i])
    } else {
        field_from(fields, name, i + 1)
    }
}

/// The first class, from `i` on, of that image and name.
pub open spec fn class_from(
    classes: Seq<ClassFacts>,
    image: Seq<char>,
    name: Seq<char>,
    i: int,
) -> Option<ClassFacts>
    decreases classes.len() - i,
{
    if i >= classes.len() {
        None
    } else if classes[i].image@ == image && classes[i].name@ == name {
        Some(classes[i])
    } else {
        class_from(classes, image, name, i + 1)
    }
}

impl ClassFacts {
    /// The field that goes by `name`.
    pub open spec fn named(self, name: Seq<char>) -> Option<FieldFacts> {
        field_from(self.fields@, name, 0)
    }

    /// The field that goes by `name`, mangled or not.
    pub fn field(&self, name: &str) -> (field: Option<&FieldFacts>)
        ensures
            field is Some <==> self.named(name@) is Some,
            field matches Some(f) ==> *f == self.named(name@)->0,
    {
        let mut i: usize = 0;
        while i < self.fields.len()
            invariant
                i <= self.fields@.len(),
                self.named(name@) == field_from(self.fields@, name@, i as int),
            decreases self.fields@.len() - i,
        {
            if same(self.fields[i].name.as_str(), name) || same(
                self.fields[i].requested_name(),
                name,
            ) {
                return Some(&self.fields[i]);
            }
            i = i + 1;
        }
        None
    }
}

impl Fixture {
    /// The class of that image and name.
    pub open spec fn classed(self, image: Seq<char>, name: Seq<char>) -> Option<ClassFacts> {
        class_from(self.classes@, image, name, 0)
    }

    pub fn class(&self, image: &str, name: &str) -> (class: Option<&ClassFacts>)
        ensures
            class is Some <==> self.classed(image@, name@) is Some,
            class matches Some(c) ==> *c == self.classed(image@, name@)->0,
    {
        let mut i: usize = 0;
        while i < self.classes.len()
            invariant
                i <= self.classes@.len(),
                self.classed(image@, name@) == class_from(
                    self.classes@,
                    image@,
                    name@,
                    i as int,
                ),
            decreases self.classes@.len() - i,
        {
            if same(self.classes[i].image.as_str(), image) && same(
                self.classes[i].name.as_str(),
                name,
            ) {
                return Some(&self.classes[i]);
            }
            i = i + 1;
        }
        None
    }

    /// The layout of a nameless class, by the path walked to reach an object of
    /// it.
    pub fn instance(&self, reached_by: &str) -> (class: Option<&ClassFacts>)
        ensures
            class is Some <==> self.classed(Seq::empty(), reached_by@) is Some,
            class matches Some(c) ==> *c == self.classed(Seq::empty(), reached_by@)->0,
    {
        proof {
            reveal_strlit("");
            assert(""@ =~= Seq::<char>::empty());
        }
        self.class("", reached_by)
    }
}

/// What a field, or a document, was expected to be.
#[derive(Clone, Copy)]
pub enum Wanted {
    Text,
    Number,
    Classes,
    List,
    Flag,
    Offset,
}

/// What is wrong with a fixture. It names what it stumbled on.
pub enum Fault {
    /// Not a JSON document at all, in the parser's words.
    NotJson(String),
    /// Something has no such entry.
    Missing { whose: String, key: &'static str },
    /// An entry is not what it should be.
    Not { whose: String, key: &'static str, wanted: Wanted },
    /// Another version of the format.
    Format(u64),
}

/// What a [`Fault`] says.
pub enum FaultView {
    NotJson(Seq<char>),
    Missing { whose: Seq<char>, key: Seq<char> },
    Not { whose: Seq<char>, key: Seq<char>, wanted: Wanted },
    Format(u64),
}

impl View for Fault {
    type V = FaultView;

    open spec fn view(&self) -> FaultView {
        match self {
            Fault::NotJson(reason) => FaultView::NotJson(reason@),
            Fault::Missing { whose, key } => FaultView::Missing { whose: whose@, key: key@ },
            Fault::Not { whose, key, wanted } => FaultView::Not {
                whose: whose@,
                key: key@,
                wanted: *wanted,
            },
            Fault::Format(format) => FaultView::Format(*format),
        }
    }
}

/// A document's contents.
pub type Doc = Map<Seq<char>, LeafView>;

/// The text under `key`.
pub open spec fn text_in(doc: Doc, base: Seq<char>, key: Seq<char>, whose: Seq<char>) -> Result<
    Seq<char>,
    FaultView,
> {
    match leaf_at(doc, under(base, key)) {
        None => Err(FaultView::Missing { whose, key }),
        Some(LeafView::Text(text)) => Ok(text),
        Some(_) => Err(FaultView::Not { whose, key, wanted: Wanted::Text }),
    }
}

/// The text under `key`, or none where there is no text.
pub open spec fn optional_text(doc: Doc, base: Seq<char>, key: Seq<char>) -> Option<Seq<char>> {
    match leaf_at(doc, under(base, key)) {
        Some(LeafView::Text(text)) => Some(text),
        _ => None,
    }
}

/// How many elements the array under `key` has.
pub open spec fn list_in(
    doc: Doc,
    base: Seq<char>,
    key: Seq<char>,
    whose: Seq<char>,
    wanted: Wanted,
) -> Result<nat, FaultView> {
    match leaf_at(doc, under(base, key)) {
        None => Err(FaultView::Missing { whose, key }),
        Some(LeafView::Array(len)) => Ok(len),
        Some(_) => Err(FaultView::Not { whose, key, wanted }),
    }
}

/// The flag under `key`.
pub open spec fn flag_in(doc: Doc, base: Seq<char>, key: Seq<char>, whose: Seq<char>) -> Result<
    bool,
    FaultView,
> {
    match leaf_at(doc, under(base, key)) {
        None => Err(FaultView::Missing { whose, key }),
        Some(LeafView::Bool(value)) => Ok(value),
        Some(_) => Err(FaultView::Not { whose, key, wanted: Wanted::Flag }),
    }
}

/// The number under `key`, of the kind `wanted` says.
pub open spec fn number_in(
    doc: Doc,
    base: Seq<char>,
    key: Seq<char>,
    whose: Seq<char>,
    wanted: Wanted,
) -> Result<u64, FaultView> {
    match leaf_at(doc, under(base, key)) {
        None => Err(FaultView::Missing { whose, key }),
        Some(LeafView::Number(Some(value))) => if wanted is Offset && value > u32::MAX {
            Err(FaultView::Not { whose, key, wanted })
        } else {
            Ok(value)
        },
        Some(_) => Err(FaultView::Not { whose, key, wanted }),
    }
}

/// The field at `base`, of the class `whose`.
pub open spec fn field_in(doc: Doc, base: Seq<char>, whose: Seq<char>) -> Result<
    FieldView,
    FaultView,
> {
    match text_in(doc, base, "name"@, whose) {
        Err(fault) => Err(fault),
        Ok(name) => {
            let whose = whose + "."@ + name;
            match text_in(doc, base, "type"@, whose) {
                Err(fault) => Err(fault),
                Ok(declared_type) => match flag_in(doc, base, "static"@, whose) {
                    Err(fault) => Err(fault),
                    Ok(is_static) => match number_in(
                        doc,
                        base,
                        "offset"@,
                        whose,
                        Wanted::Offset,
                    ) {
                        Err(fault) => Err(fault),
                        Ok(offset) => Ok(
                            FieldView {
                                name,
                                requested: optional_text(doc, base, "requested"@),
                                declared_type,
                                is_static,
                                offset: offset as u32,
                            },
                        ),
                    },
                },
            }
        },
    }
}

/// The first `n` fields of the list at `base`, of the class `whose`.
pub open spec fn fields_in(doc: Doc, base: Seq<char>, whose: Seq<char>, n: nat) -> Result<
    Seq<FieldView>,
    FaultView,
>
    decreases n,
{
    if n == 0 {
        Ok(Seq::empty())
    } else {
        match fields_in(doc, base, whose, (n - 1) as nat) {
            Err(fault) => Err(fault),
            Ok(fields) => match field_in(doc, element(base, n - 1), whose) {
                Err(fault) => Err(fault),
                Ok(field) => Ok(fields.push(field)),
            },
        }
    }
}

/// The class at `base`, the one of that index.
pub open spec fn class_in(doc: Doc, base: Seq<char>, index: int) -> Result<ClassView, FaultView> {
    let whose = "class "@ + decimal_text(index);
    match text_in(doc, base, "image"@, whose) {
        Err(fault) => Err(fault),
        Ok(image) => match text_in(doc, base, "name"@, whose) {
            Err(fault) => Err(fault),
            Ok(name) => {
                let whose = image + "/"@ + name;
                match list_in(doc, base, "fields"@, whose, Wanted::List) {
                    Err(fault) => Err(fault),
                    Ok(n) => match fields_in(doc, under(base, "fields"@), whose, n) {
                        Err(fault) => Err(fault),
                        Ok(fields) => match text_in(doc, base, "namespace"@, whose) {
                            Err(fault) => Err(fault),
                            Ok(namespace) => Ok(ClassView { image, namespace, name, fields }),
                        },
                    },
                }
            },
        },
    }
}

/// The first `n` classes of the list at `base`.
pub open spec fn classes_in(doc: Doc, base: Seq<char>, n: nat) -> Result<
    Seq<ClassView>,
    FaultView,
>
    decreases n,
{
    if n == 0 {
        Ok(Seq::empty())
    } else {
        match classes_in(doc, base, (n - 1) as nat) {
            Err(fault) => Err(fault),
            Ok(classes) => match class_in(doc, element(base, n - 1), n - 1) {
                Err(fault) => Err(fault),
                Ok(class) => Ok(classes.push(class)),
            },
        }
    }
}

/// A text that may be absent, as an empty one.
pub open spec fn or_empty(text: Option<Seq<char>>) -> Seq<char> {
    match text {
        Some(text) => text,
        None => Seq::empty(),
    }
}

/// The fixture in a document, or the first thing wrong with it.
pub open spec fn fixture_in(doc: Doc) -> Result<FixtureView, FaultView> {
    let root = Seq::<char>::empty();
    let whose = "the fixture"@;
    match number_in(doc, root, "format"@, whose, Wanted::Number) {
        Err(fault) => Err(fault),
        Ok(format) => if format != FORMAT {
            Err(FaultView::Format(format))
        } else {
            match list_in(doc, root, "classes"@, whose, Wanted::Classes) {
                Err(fault) => Err(fault),
                Ok(n) => match classes_in(doc, under(root, "classes"@), n) {
                    Err(fault) => Err(fault),
                    Ok(classes) => match text_in(doc, root, "game_version"@, whose) {
                        Err(fault) => Err(fault),
                        Ok(game_version) => Ok(
                            FixtureView {
                                game_version,
                                build_id: match leaf_at(doc, under(root, "build_id"@)) {
                                    Some(LeafView::Number(value)) => value,
                                    _ => None,
                                },
                                snapshot: or_empty(
                                    optional_text(doc, under(root, "sources"@), "snapshot"@),
                                ),
                                managed: or_empty(
                                    optional_text(doc, under(root, "sources"@), "managed"@),
                                ),
                                classes,
                            },
                        ),
                    },
                },
            }
        },
    }
}

/// The same outcome, by what it says.
pub open spec fn same_outcome<T: View, E: View>(
    result: Result<T, E>,
    expected: Result<T::V, E::V>,
) -> bool {
    match (result, expected) {
        (Ok(value), Ok(view)) => value@ == view,
        (Err(fault), Err(view)) => fault@ == view,
        _ => false,
    }
}

fn pointer_under(base: &str, key: &str) -> (pointer: String)
    ensures
        pointer@ == under(base@, key@),
{
    let mut pointer = owned(base);
    pointer.append("/");
    pointer.append(key);
    pointer
}

fn pointer_to(base: &str, index: usize) -> (pointer: String)
    ensures
        pointer@ == element(base@, index as int),
{
    let mut pointer = owned(base);
    pointer.append("/");
    push_decimal(&mut pointer, index as u64);
    pointer
}

fn read_text(value: &serde_json::Value, base: &str, key: &'static str, whose: &str) -> (result:
    Result<String, Fault>)
    ensures
        same_outcome(result, text_in(held(*value), base@, key@, whose@)),
{
    match look(value, pointer_under(base, key).as_str()) {
        None => Err(Fault::Missing { whose: owned(whose), key }),
        Some(Leaf::Text(text)) => Ok(text),
        Some(_) => Err(Fault::Not { whose: owned(whose), key, wanted: Wanted::Text }),
    }
}

fn read_optional(value: &serde_json::Value, base: &str, key: &'static str) -> (text: Option<String>)
    ensures
        optional_text(held(*value), base@, key@) == match text {
            Some(text) => Some(text@),
            None => None,
        },
{
    match look(value, pointer_under(base, key).as_str()) {
        Some(Leaf::Text(text)) => Some(text),
        _ => None,
    }
}

fn read_list(
    value: &serde_json::Value,
    base: &str,
    key: &'static str,
    whose: &str,
    wanted: Wanted,
) -> (result: Result<usize, Fault>)
    ensures
        match (result, list_in(held(*value), base@, key@, whose@, wanted)) {
            (Ok(len), Ok(view)) => len == view,
            (Err(fault), Err(view)) => fault@ == view,
            _ => false,
        },
{
    match look(value, pointer_under(base, key).as_str()) {
        None => Err(Fault::Missing { whose: owned(whose), key }),
        Some(Leaf::Array(len)) => Ok(len),
        Some(_) => Err(Fault::Not { whose: owned(whose), key, wanted }),
    }
}

fn read_flag(value: &serde_json::Value, base: &str, key: &'static str, whose: &str) -> (result:
    Result<bool, Fault>)
    ensures
        match (result, flag_in(held(*value), base@, key@, whose@)) {
            (Ok(flag), Ok(view)) => flag == view,
            (Err(fault), Err(view)) => fault@ == view,
            _ => false,
        },
{
    match look(value, pointer_under(base, key).as_str()) {
        None => Err(Fault::Missing { whose: owned(whose), key }),
        Some(Leaf::Bool(flag)) => Ok(flag),
        Some(_) => Err(Fault::Not { whose: owned(whose), key, wanted: Wanted::Flag }),
    }
}

fn read_number(
    value: &serde_json::Value,
    base: &str,
    key: &'static str,
    whose: &str,
    wanted: Wanted,
) -> (result: Result<u64, Fault>)
    ensures
        match (result, number_in(held(*value), base@, key@, whose@, wanted)) {
            (Ok(number), Ok(view)) => number == view,
            (Err(fault), Err(view)) => fault@ == view,
            _ => false,
        },
{
    let narrow = matches!(wanted, Wanted::Offset);
    match look(value, pointer_under(base, key).as_str()) {
        None => Err(Fault::Missing { whose: owned(whose), key }),
        Some(Leaf::Number(Some(number))) => if narrow && number > 0xffff_ffff {
            Err(Fault::Not { whose: owned(whose), key, wanted })
        } else {
            Ok(number)
        },
        Some(_) => Err(Fault::Not { whose: owned(whose), key, wanted }),
    }
}

fn read_field(value: &serde_json::Value, base: &str, class: &str) -> (result: Result<
    FieldFacts,
    Fault,
>)
    ensures
        same_outcome(result, field_in(held(*value), base@, class@)),
{
    let name = match read_text(value, base, "name", class) {
        Ok(name) => name,
        Err(fault) => {
            return Err(fault);
        },
    };
    let mut whose = owned(class);
    whose.append(".");
    whose.append(name.as_str());
    let requested = read_optional(value, base, "requested");
    let declared_type = match read_text(value, base, "type", whose.as_str()) {
        Ok(text) => text,
        Err(fault) => {
            return Err(fault);
        },
    };
    let is_static = match read_flag(value, base, "static", whose.as_str()) {
        Ok(flag) => flag,
        Err(fault) => {
            return Err(fault);
        },
    };
    let offset: u64 = match read_number(value, base, "offset", whose.as_str(), Wanted::Offset) {
        Ok(number) => number,
        Err(fault) => {
            return Err(fault);
        },
    };
    Ok(FieldFacts { name, requested, declared_type, is_static, offset: offset as u32 })
}

proof fn lemma_fields_fail(doc: Doc, base: Seq<char>, whose: Seq<char>, m: nat, n: nat)
    requires
        m <= n,
        fields_in(doc, base, whose, m) is Err,
    ensures
        fields_in(doc, base, whose, n) == fields_in(doc, base, whose, m),
    decreases n,
{
    if m < n {
        lemma_fields_fail(doc, base, whose, m, (n - 1) as nat);
    }
}

proof fn lemma_classes_fail(doc: Doc, base: Seq<char>, m: nat, n: nat)
    requires
        m <= n,
        classes_in(doc, base, m) is Err,
    ensures
        classes_in(doc, base, n) == classes_in(doc, base, m),
    decreases n,
{
    if m < n {
        lemma_classes_fail(doc, base, m, (n - 1) as nat);
    }
}

fn read_fields(value: &serde_json::Value, base: &str, whose: &str, n: usize) -> (result: Result<
    Vec<FieldFacts>,
    Fault,
>)
    ensures
        match (result, fields_in(held(*value), base@, whose@, n as nat)) {
            (Ok(fields), Ok(view)) => field_views(fields@) == view,
            (Err(fault), Err(view)) => fault@ == view,
            _ => false,
        },
{
    let mut fields: Vec<FieldFacts> = Vec::new();
    let mut j: usize = 0;
    assert(field_views(fields@) =~= Seq::<FieldView>::empty());
    while j < n
        invariant
            j <= n,
            fields_in(held(*value), base@, whose@, j as nat) == Ok::<Seq<FieldView>, FaultView>(
                field_views(fields@),
            ),
        decreases n - j,
    {
        let ghost before = fields@;
        match read_field(value, pointer_to(base, j).as_str(), whose) {
            Ok(field) => {
                let ghost said = field@;
                fields.push(field);
                assert(field_views(fields@) =~= field_views(before).push(said));
            },
            Err(fault) => {
                proof {
                    lemma_fields_fail(held(*value), base@, whose@, (j + 1) as nat, n as nat);
                }
                return Err(fault);
            },
        }
        j = j + 1;
    }
    Ok(fields)
}

fn read_class(value: &serde_json::Value, base: &str, index: usize) -> (result: Result<
    ClassFacts,
    Fault,
>)
    ensures
        same_outcome(result, class_in(held(*value), base@, index as int)),
{
    let mut place = owned("class ");
    push_decimal(&mut place, index as u64);
    let image = match read_text(value, base, "image", place.as_str()) {
        Ok(text) => text,
        Err(fault) => {
            return Err(fault);
        },
    };
    let name = match read_text(value, base, "name", place.as_str()) {
        Ok(text) => text,
        Err(fault) => {
            return Err(fault);
        },
    };
    let mut whose = owned(image.as_str());
    whose.append("/");
    whose.append(name.as_str());
    let n: usize = match read_list(value, base, "fields", whose.as_str(), Wanted::List) {
        Ok(n) => n,
        Err(fault) => {
            return Err(fault);
        },
    };
    let list = pointer_under(base, "fields");
    let fields = match read_fields(value, list.as_str(), whose.as_str(), n) {
        Ok(fields) => fields,
        Err(fault) => {
            return Err(fault);
        },
    };
    let namespace = match read_text(value, base, "namespace", whose.as_str()) {
        Ok(text) => text,
        Err(fault) => {
            return Err(fault);
        },
    };
    Ok(ClassFacts { image, namespace, name, fields })
}

fn read_classes(value: &serde_json::Value, base: &str, n: usize) -> (result: Result<
    Vec<ClassFacts>,
    Fault,
>)
    ensures
        match (result, classes_in(held(*value), base@, n as nat)) {
            (Ok(classes), Ok(view)) => class_views(classes@) == view,
            (Err(fault), Err(view)) => fault@ == view,
            _ => false,
        },
{
    let mut classes: Vec<ClassFacts> = Vec::new();
    let mut i: usize = 0;
    assert(class_views(classes@) =~= Seq::<ClassView>::empty());
    while i < n
        invariant
            i <= n,
            classes_in(held(*value), base@, i as nat) == Ok::<Seq<ClassView>, FaultView>(
                class_views(classes@),
            ),
        decreases n - i,
    {
        let ghost before = classes@;
        match read_class(value, pointer_to(base, i).as_str(), i) {
            Ok(class) => {
                let ghost said = class@;
                classes.push(class);
                assert(class_views(classes@) =~= class_views(before).push(said));
            },
            Err(fault) => {
                proof {
                    lemma_classes_fail(held(*value), base@, (i + 1) as nat, n as nat);
                }
                return Err(fault);
            },
        }
        i = i + 1;
    }
    Ok(classes)
}

impl Fixture {
    /// Reads a fixture out of a JSON document, or says the first thing that is
    /// wrong with it.
    pub fn read(value: &serde_json::Value) -> (result: Result<Self, Fault>)
        ensures
            same_outcome(result, fixture_in(held(*value))),
    {
        proof {
            reveal_strlit("");
            assert(""@ =~= Seq::<char>::empty());
        }
        let format: u64 = match read_number(value, "", "format", "the fixture", Wanted::Number) {
            Ok(format) => format,
            Err(fault) => {
                return Err(fault);
            },
        };
        if format != FORMAT {
            return Err(Fault::Format(format));
        }
        let n: usize = match read_list(value, "", "classes", "the fixture", Wanted::Classes) {
            Ok(n) => n,
            Err(fault) => {
                return Err(fault);
            },
        };
        let list = pointer_under("", "classes");
        let classes = match read_classes(value, list.as_str(), n) {
            Ok(classes) => classes,
            Err(fault) => {
                return Err(fault);
            },
        };
        let game_version = match read_text(value, "", "game_version", "the fixture") {
            Ok(text) => text,
            Err(fault) => {
                return Err(fault);
            },
        };
        let build_id = match look(value, pointer_under("", "build_id").as_str()) {
            Some(Leaf::Number(number)) => number,
            _ => None,
        };
        let origin = pointer_under("", "sources");
        let snapshot = match read_optional(value, origin.as_str(), "snapshot") {
            Some(text) => text,
            None => String::new(),
        };
        let managed = match read_optional(value, origin.as_str(), "managed") {
            Some(text) => text,
            None => String::new(),
        };
        Ok(Fixture { game_version, build_id, sources: Sources { snapshot, managed }, classes })
    }

    /// Reads a fixture out of its JSON text. What [`Fixture::to_json`] wrote of a
    /// fixture reads back as that fixture.
    pub fn from_json(text: &str) -> (result: Result<Self, Fault>)
        ensures
            match document(text@) {
                Some(doc) => same_outcome(result, fixture_in(doc)),
                None => result matches Err(fault) && fault@ == FaultView::NotJson(
                    complaint(text@),
                ),
            },
            forall|written: FixtureView| #[trigger]
                fixture_text(written) == text@ ==> (result matches Ok(fixture) && fixture@
                    == written),
    {
        let parsed = parse(text);
        proof {
            assert forall|written: FixtureView| #[trigger]
                fixture_text(written) == text@ implies (parsed matches Ok(value) && fixture_in(
                held(value),
            ) == Ok::<FixtureView, FaultView>(written)) by {
                written::lemma_reads_back(text@, parsed, written);
            }
        }
        match parsed {
            Ok(value) => Self::read(&value),
            Err(reason) => Err(Fault::NotJson(reason)),
        }
    }
}

/// A field, as it is written.
pub open spec fn field_text(field: FieldView) -> Seq<char> {
    "        { \"name\": "@ + quoted(field.name) + (match field.requested {
        Some(requested) => ", \"requested\": "@ + quoted(requested),
        None => Seq::empty(),
    }) + ", \"type\": "@ + quoted(field.declared_type) + ", \"static\": "@ + (if field.is_static {
        "true"@
    } else {
        "false"@
    }) + ", \"offset\": "@ + decimal_text(field.offset as int) + " }"@
}

/// The first `n` fields, one to a line, with commas between them.
pub open spec fn fields_text(fields: Seq<FieldView>, n: int) -> Seq<char>
    decreases n,
{
    if n <= 0 {
        Seq::empty()
    } else {
        fields_text(fields, n - 1) + field_text(fields[n - 1]) + (if n == fields.len() {
            "\n"@
        } else {
            ",\n"@
        })
    }
}

/// A class, as it is written.
pub open spec fn class_text(class: ClassView) -> Seq<char> {
    "    {\n      \"image\": "@ + quoted(class.image) + ",\n      \"namespace\": "@ + quoted(
        class.namespace,
    ) + ",\n      \"name\": "@ + quoted(class.name) + (if class.fields.len() == 0 {
        ",\n      \"fields\": []\n"@
    } else {
        ",\n      \"fields\": [\n"@ + fields_text(class.fields, class.fields.len() as int)
            + "      ]\n"@
    }) + "    }"@
}

/// The first `n` classes, with commas between them.
pub open spec fn classes_text(classes: Seq<ClassView>, n: int) -> Seq<char>
    decreases n,
{
    if n <= 0 {
        Seq::empty()
    } else {
        classes_text(classes, n - 1) + class_text(classes[n - 1]) + (if n == classes.len() {
            "\n"@
        } else {
            ",\n"@
        })
    }
}

/// A fixture, as it is written: stable key order, one field per line, so a
/// regenerated file diffs against the old one readably.
pub open spec fn fixture_text(fixture: FixtureView) -> Seq<char> {
    "{\n  \"format\": "@ + decimal_text(FORMAT as int) + ",\n  \"game_version\": "@ + quoted(
        fixture.game_version,
    ) + ",\n"@ + (match fixture.build_id {
        Some(build_id) => "  \"build_id\": "@ + decimal_text(build_id as int) + ",\n"@,
        None => Seq::empty(),
    }) + "  \"sources\": {\n    \"snapshot\": "@ + quoted(fixture.snapshot)
        + ",\n    \"managed\": "@ + quoted(fixture.managed) + "\n  },\n  \"classes\": [\n"@
        + classes_text(fixture.classes, fixture.classes.len() as int) + "  ]\n}\n"@
}

fn push_quoted(out: &mut String, text: &str)
    ensures
        final(out)@ == old(out)@ + quoted(text@),
{
    let json = quote(text);
    out.append(json.as_str());
}

fn push_field(out: &mut String, field: &FieldFacts)
    ensures
        final(out)@ == old(out)@ + field_text(field@),
{
    out.append("        { \"name\": ");
    push_quoted(out, field.name.as_str());
    if let Some(requested) = &field.requested {
        out.append(", \"requested\": ");
        push_quoted(out, requested.as_str());
    }
    out.append(", \"type\": ");
    push_quoted(out, field.declared_type.as_str());
    out.append(", \"static\": ");
    out.append(
        if field.is_static {
            "true"
        } else {
            "false"
        },
    );
    out.append(", \"offset\": ");
    push_decimal(out, field.offset as u64);
    out.append(" }");
    assert(out@ =~= old(out)@ + field_text(field@));
}

fn push_class(out: &mut String, class: &ClassFacts)
    ensures
        final(out)@ == old(out)@ + class_text(class@),
{
    out.append("    {\n      \"image\": ");
    push_quoted(out, class.image.as_str());
    out.append(",\n      \"namespace\": ");
    push_quoted(out, class.namespace.as_str());
    out.append(",\n      \"name\": ");
    push_quoted(out, class.name.as_str());
    if class.fields.len() == 0 {
        out.append(",\n      \"fields\": []\n");
    } else {
        out.append(",\n      \"fields\": [\n");
        let ghost begun = out@;
        let ghost fields = class@.fields;
        let mut j: usize = 0;
        assert(out@ =~= begun + fields_text(fields, 0));
        while j < class.fields.len()
            invariant
                j <= class.fields@.len(),
                fields == class@.fields,
                out@ == begun + fields_text(fields, j as int),
            decreases class.fields@.len() - j,
        {
            let ghost before = out@;
            push_field(out, &class.fields[j]);
            out.append(
                if j + 1 == class.fields.len() {
                    "\n"
                } else {
                    ",\n"
                },
            );
            assert(fields[j as int] == class.fields@[j as int]@);
            assert(out@ =~= begun + fields_text(fields, j + 1));
            j = j + 1;
        }
        out.append("      ]\n");
    }
    out.append("    }");
    assert(out@ =~= old(out)@ + class_text(class@));
}

impl Fixture {
    /// The fixture as JSON: stable key order, one field per line, so a
    /// regenerated file diffs against the old one readably.
    pub fn to_json(&self) -> (json: String)
        ensures
            json@ == fixture_text(self@),
    {
        let mut out = owned("{\n  \"format\": ");
        push_decimal(&mut out, FORMAT);
        out.append(",\n  \"game_version\": ");
        push_quoted(&mut out, self.game_version.as_str());
        out.append(",\n");
        if let Some(build_id) = self.build_id {
            out.append("  \"build_id\": ");
            push_decimal(&mut out, build_id);
            out.append(",\n");
        }
        out.append("  \"sources\": {\n    \"snapshot\": ");
        push_quoted(&mut out, self.sources.snapshot.as_str());
        out.append(",\n    \"managed\": ");
        push_quoted(&mut out, self.sources.managed.as_str());
        out.append("\n  },\n  \"classes\": [\n");
        let ghost begun = out@;
        let ghost classes = self@.classes;
        let mut i: usize = 0;
        assert(out@ =~= begun + classes_text(classes, 0));
        while i < self.classes.len()
            invariant
                i <= self.classes@.len(),
                classes == self@.classes,
                out@ == begun + classes_text(classes, i as int),
            decreases self.classes@.len() - i,
        {
            push_class(&mut out, &self.classes[i]);
            out.append(
                if i + 1 == self.classes.len() {
                    "\n"
                } else {
                    ",\n"
                },
            );
            assert(classes[i as int] == self.classes@[i as int]@);
            assert(out@ =~= begun + classes_text(classes, i + 1));
            i = i + 1;
        }
        out.append("  ]\n}\n");
        assert(out@ =~= fixture_text(self@));
        out
    }
}

/// What a fault says, in words.
pub open spec fn fault_text(fault: FaultView) -> Seq<char> {
    match fault {
        FaultView::NotJson(reason) => "not JSON: "@ + reason,
        FaultView::Missing { whose, key } => whose + " has no \""@ + key + "\""@,
        FaultView::Not { whose, key, wanted } => whose + (if wanted is Number || wanted is Classes {
            "'s \""@
        } else {
            ": \""@
        }) + key + (match wanted {
            Wanted::Text => "\" is not a string"@,
            Wanted::Number => "\" is not a number"@,
            Wanted::Classes => "\" is not an array"@,
            Wanted::List => "\" is not an array"@,
            Wanted::Flag => "\" is not a boolean"@,
            Wanted::Offset => "\" is not a 32-bit number"@,
        }),
        FaultView::Format(format) => "fixture format "@ + decimal_text(format as int)
            + ", but this harness reads "@ + decimal_text(FORMAT as int) + "; regenerate it with `cargo fixture`"@,
    }
}

impl Fault {
    /// What is wrong, in words.
    pub fn text(&self) -> (text: String)
        ensures
            text@ == fault_text(self@),
    {
        let mut text: String;
        match self {
            Fault::NotJson(reason) => {
                text = owned("not JSON: ");
                text.append(reason.as_str());
            },
            Fault::Missing { whose, key } => {
                text = owned(whose.as_str());
                text.append(" has no \"");
                text.append(key);
                text.append("\"");
            },
            Fault::Not { whose, key, wanted } => {
                text = owned(whose.as_str());
                text.append(
                    if matches!(wanted, Wanted::Number | Wanted::Classes) {
                        "'s \""
                    } else {
                        ": \""
                    },
                );
                text.append(key);
                match wanted {
                    Wanted::Text => text.append("\" is not a string"),
                    Wanted::Number => text.append("\" is not a number"),
                    Wanted::Classes => text.append("\" is not an array"),
                    Wanted::List => text.append("\" is not an array"),
                    Wanted::Flag => text.append("\" is not a boolean"),
                    Wanted::Offset => text.append("\" is not a 32-bit number"),
                }
            },
            Fault::Format(format) => {
                text = owned("fixture format ");
                push_decimal(&mut text, *format);
                text.append(", but this harness reads ");
                push_decimal(&mut text, FORMAT);
                text.append("; regenerate it with `cargo fixture`");
            },
        }
        text
    }
}

impl Fixture {
    /// A process to be built, with every class of the fixture laid out.
    pub fn builder(&self) -> (builder: builder::Builder)
        requires
            mono::room_for(class_views(self.classes@)) <= region::SPAN,
        ensures
            builder.wf(),
            builder@.classes == class_views(self.classes@),
            mono::is_metadata(builder@.metadata, builder@.classes, builder@.layouts),
            mono::are_distinct(builder@.layouts),
            builder@.heap.len() == 0,
            builder@.table == Some(Seq::<u8>::empty()),
            builder@.game_version == self.game_version@,
    {
        builder::Builder::new(self)
    }
}

/// Whether a file is a fixture, by its name: it ends in `.json`, with something
/// in front of that.
pub open spec fn is_fixture_name(name: Seq<char>) -> bool {
    name.len() > 5 && name.skip(name.len() - 5) == ".json"@
}

/// The fixtures among the first `n` files.
pub open spec fn fixtures_among(names: Seq<Seq<char>>, n: int) -> Seq<Seq<char>>
    decreases n,
{
    if n <= 0 {
        Seq::empty()
    } else if is_fixture_name(names[n - 1]) {
        fixtures_among(names, n - 1).push(names[n - 1])
    } else {
        fixtures_among(names, n - 1)
    }
}

/// Names in order: none comes before one in front of it.
pub open spec fn are_ordered(names: Seq<Seq<char>>) -> bool {
    forall|i: int, j: int|
        0 <= i < j < names.len() ==> !precedes(#[trigger] names[j], #[trigger] names[i])
}

/// The fixtures among the files of a directory, oldest game version first by
/// name. More than one is the point: the splitter's whole claim is that it
/// resolves names at runtime and so survives a game update.
pub fn fixture_names(names: &Vec<String>) -> (chosen: Vec<String>)
    ensures
        are_ordered(mono::texts(chosen@)),
        mono::texts(chosen@).to_multiset() == fixtures_among(
            mono::texts(names@),
            names@.len() as int,
        ).to_multiset(),
{
    let ghost all = mono::texts(names@);
    let mut chosen: Vec<String> = Vec::new();
    let mut i: usize = 0;
    assert(mono::texts(chosen@) =~= fixtures_among(all, 0));
    while i < names.len()
        invariant
            i <= names@.len(),
            all == mono::texts(names@),
            are_ordered(mono::texts(chosen@)),
            mono::texts(chosen@).to_multiset() == fixtures_among(all, i as int).to_multiset(),
        decreases names@.len() - i,
    {
        broadcast use vstd::seq_lib::group_to_multiset_ensures;

        let name = names[i].as_str();
        assert(all[i as int] == name@);
        if ends_in_json(name) {
            insert_name(&mut chosen, name);
        }
        i = i + 1;
    }
    chosen
}

fn ends_in_json(name: &str) -> (is: bool)
    ensures
        is == is_fixture_name(name@),
{
    let chars = chars_of(name);
    let extension = chars_of(".json");
    let len: usize = chars.len();
    proof {
        reveal_strlit(".json");
    }
    if len <= 5 {
        return false;
    }
    assert(name@.skip(len - 5) =~= name@.subrange(len - 5, len as int));
    chars_at(chars.as_slice(), extension.as_slice(), len - 5)
}

fn insert_name(names: &mut Vec<String>, name: &str)
    requires
        are_ordered(mono::texts(old(names)@)),
    ensures
        are_ordered(mono::texts(final(names)@)),
        mono::texts(final(names)@).to_multiset() == mono::texts(old(names)@).to_multiset().insert(
            name@,
        ),
{
    let ghost before = mono::texts(names@);
    let mut at: usize = names.len();
    while at > 0 && comes_before(name, names[at - 1].as_str())
        invariant
            at <= names@.len(),
            names@ == old(names)@,
            before == mono::texts(names@),
            are_ordered(before),
            forall|j: int| at <= j < before.len() ==> precedes(name@, #[trigger] before[j]),
        decreases at,
    {
        assert(before[at - 1] == names@[at - 1]@);
        at = at - 1;
    }
    proof {
        if at > 0 {
            assert(before[at - 1] == names@[at - 1]@);
        }
    }
    names.insert(at, owned(name));
    proof {
        broadcast use vstd::seq_lib::group_to_multiset_ensures;

        let after = mono::texts(names@);
        assert(after =~= before.insert(at as int, name@));
        assert forall|i: int, j: int| 0 <= i < j < after.len() implies !precedes(
            #[trigger] after[j],
            #[trigger] after[i],
        ) by {
            if i == at {
                lemma_precedes_total(name@, before[j - 1]);
            } else if j == at {
                // Nothing in front comes after the name: the last of them does
                // not, and they are in order.
                if precedes(name@, before[i]) && i < at - 1 {
                    lemma_precedes_total(before[i], before[at - 1]);
                    if before[i] != before[at - 1] {
                        assert(!precedes(before[at - 1], before[i]));
                        lemma_precedes(name@, before[i], before[at - 1]);
                    }
                }
            }
        }
    }
}

} // verus!
