//! A Timberborn-shaped world on top of the synthetic heap.
//!
//! [`Builder`] knows about Mono and nothing about the game: it can place an
//! object of a class and say where the class's vtable is. This knows about the
//! game and nothing about Mono: the DI container holds every service in one
//! array, a service is recognised by its `_eventBus`, the scene loader is
//! recognised by its `_assetLoader`. Everything here exists because the splitter
//! walks it.
//!
//! ```text
//!   SingletonRepository -> SingletonListener -> object[] -+-> DayNightCycle
//!                                                         +-> EventBus
//!                                                         +-> ...
//!   SceneLoader -+-> AssetLoader          (what validates the loader)
//!                +-> GameSceneParameters  (new game, or a save)
//! ```
//!
//! Fields are written **by name**, resolved through the fixture, so a scene
//! built here is laid out the way the game lays one out.
use vstd::bytes::{
    lemma_auto_spec_u32_to_from_le_bytes, lemma_auto_spec_u64_to_from_le_bytes,
    spec_u32_to_le_bytes, spec_u64_to_le_bytes, u32_to_le_bytes, u64_to_le_bytes,
};
use vstd::prelude::*;
use vstd::string::StringExecFns;

use crate::fixture::builder::{
    are_loaded, blocks_of, class_at, describes_all, instance_size, is_built, lemma_reach, padded,
    ranges_of, Builder, BuilderView, HEAP_BASE, PID,
};
use crate::fixture::mono::room_for;
use crate::fixture::region::{
    aligned, grown, lemma_grown, lemma_overwritten, overwritten, word, SPAN,
};
use crate::fixture::{
    class_from, class_views, field_from, ClassFacts, ClassView, FieldFacts, Fixture,
};
use crate::memory::{in_one_block, last_at, poked, u64_at, FakeProcess, Memory, SparseMemory};
use crate::text::{owned, utf16, utf16_units};

verus! {

/// `MonoString`: object header, then the length, then UTF-16 characters.
///
/// Part of the Mono ABI rather than of any game version, like the object header
/// itself.
pub const STRING_LENGTH: u64 = 0x10;

pub const STRING_CHARS: u64 = 0x14;

/// `MonoArray`: object header, then bounds, then length, then the elements.
pub const ARRAY_LENGTH: u64 = 0x18;

pub const ARRAY_DATA: u64 = 0x20;

/// `Slot<T>` in Mono's `HashSet<T>`: `int _hashCode`, `int _next`, then the
/// reference, 8-aligned. A negative hash marks a free slot.
pub const SLOT_SIZE: u64 = 16;

/// `List<EntityComponent>`, the registry's instantiation-order list.
pub const ENTITY_LIST: &'static str = "Timberborn.GameOver/GameOverChecker -> GameOverChecker._entityRegistry -> EntityRegistry._entitiesInInstantiationOrder";

/// `HashSet<string>` of unlocked building names.
pub const UNLOCKED_SET: &'static str = "Timberborn.ScienceSystem/BuildingUnlockingService -> BuildingUnlockingService._unlockedBuildings";

/// `List<object>`, an entity's component cache.
pub const COMPONENT_LIST: &'static str = "Timberborn.GameOver/GameOverChecker -> GameOverChecker._entityRegistry -> EntityRegistry._entitiesInInstantiationOrder -> [0] -> BaseComponent._componentCache -> ComponentCache._components";

/// An object on the synthetic heap, and the class it is an instance of.
///
/// Carries its class so fields can be written by name, rather than repeating
/// which class the offset should come from.
pub struct Object {
    pub address: u64,
    pub image: String,
    pub class: String,
}

impl Object {
    /// The address, for a test asserting on what the splitter logged.
    pub fn address(&self) -> (address: u64)
        ensures
            address == self.address,
    {
        self.address
    }
}

/// One entity, in the two pieces a scenario touches.
///
/// The splitter reads a building's identity off its component cache and its
/// completion off a `BlockObjectState` among its components, so finishing a
/// building means writing to a different object than the one in the registry's
/// list.
pub struct Entity {
    /// What the entity registry's list holds.
    pub component: Object,
    /// Where `_state` says whether the building is finished.
    pub block_state: Object,
}

/// Where an instance field sits, from the fixture. A static field lives in the
/// class's static table, not on an instance.
pub open spec fn offset_in(
    fixture: Fixture,
    image: Seq<char>,
    class: Seq<char>,
    field: Seq<char>,
) -> Option<u32> {
    match fixture.classed(image, class) {
        Some(facts) => match facts.named(field) {
            Some(field) => if field.is_static {
                None
            } else {
                Some(field.offset)
            },
            None => None,
        },
        None => None,
    }
}

/// Where an instance field sits, from the fixture.
pub fn find_offset(fixture: &Fixture, image: &str, class: &str, field: &str) -> (offset: Option<
    u32,
>)
    ensures
        offset == offset_in(*fixture, image@, class@, field@),
{
    match fixture.class(image, class) {
        Some(facts) => match facts.field(field) {
            Some(field) => if field.is_static {
                None
            } else {
                Some(field.offset)
            },
            None => None,
        },
        None => None,
    }
}

/// Where a fixture has a class of one image and name more than once, it says the
/// same of it.
pub open spec fn agree(classes: Seq<ClassView>) -> bool {
    forall|i: int, j: int|
        0 <= i < j < classes.len() && (#[trigger] classes[i]).image == (
        #[trigger] classes[j]).image && classes[i].name == classes[j].name ==> classes[i]
            == classes[j]
}

/// A `MonoString`: a trailing NUL, as Mono stores, since a string that is
/// exactly as long as its characters is a shape the game never has.
pub open spec fn string_bytes(units: Seq<u16>) -> Seq<u8> {
    Seq::new(STRING_LENGTH as nat, |i: int| 0u8) + spec_u32_to_le_bytes(units.len() as u32)
        + unit_bytes(units) + seq![0u8, 0u8]
}

/// UTF-16 units, low byte first.
pub open spec fn unit_bytes(units: Seq<u16>) -> Seq<u8> {
    Seq::new(
        2 * units.len(),
        |i: int|
            if i % 2 == 0 {
                (units[i / 2] % 256) as u8
            } else {
                (units[i / 2] / 256) as u8
            },
    )
}

/// Words, one behind the other.
pub open spec fn word_bytes(words: Seq<u64>) -> Seq<u8>
    decreases words.len(),
{
    if words.len() == 0 {
        Seq::empty()
    } else {
        word_bytes(words.drop_last()) + spec_u64_to_le_bytes(words.last())
    }
}

/// A `MonoArray` of references.
pub open spec fn array_bytes(elements: Seq<u64>) -> Seq<u8> {
    Seq::new(ARRAY_LENGTH as nat, |i: int| 0u8) + spec_u64_to_le_bytes(elements.len() as u64)
        + word_bytes(elements)
}

/// Occupied slots of a `HashSet`: a non-negative hash, and the reference. The
/// value itself is never hashed by anything that reads this.
pub open spec fn slot_bytes(values: Seq<u64>) -> Seq<u8>
    decreases values.len(),
{
    if values.len() == 0 {
        Seq::empty()
    } else {
        slot_bytes(values.drop_last()) + spec_u32_to_le_bytes((values.len() - 1) as u32)
            + seq![0u8, 0u8, 0u8, 0u8] + spec_u64_to_le_bytes(values.last())
    }
}

/// The slots of a `HashSet`, as an array.
pub open spec fn slots_bytes(values: Seq<u64>) -> Seq<u8> {
    Seq::new(ARRAY_LENGTH as nat, |i: int| 0u8) + spec_u64_to_le_bytes(values.len() as u64)
        + slot_bytes(values)
}

fn zeros(n: u64) -> (bytes: Vec<u8>)
    requires
        n <= SPAN,
    ensures
        bytes@ == Seq::new(n as nat, |i: int| 0u8),
{
    let mut bytes: Vec<u8> = Vec::new();
    while (bytes.len() as u64) < n
        invariant
            n <= SPAN,
            bytes@.len() <= n,
            bytes@ == Seq::new(bytes@.len(), |i: int| 0u8),
        decreases n - bytes@.len(),
    {
        bytes.push(0);
        assert(bytes@ =~= Seq::new(bytes@.len(), |i: int| 0u8));
    }
    bytes
}

fn encode_string(units: &Vec<u16>) -> (bytes: Vec<u8>)
    requires
        units@.len() <= u32::MAX,
    ensures
        bytes@ == string_bytes(units@),
{
    let mut bytes = zeros(STRING_LENGTH);
    let mut len = u32_to_le_bytes(units.len() as u32);
    bytes.append(&mut len);
    let ghost head = bytes@;
    let mut i: usize = 0;
    assert(bytes@ =~= head + unit_bytes(units@.take(0)));
    while i < units.len()
        invariant
            i <= units@.len(),
            bytes@ == head + unit_bytes(units@.take(i as int)),
        decreases units@.len() - i,
    {
        let unit: u16 = units[i];
        bytes.push((unit % 256) as u8);
        bytes.push((unit / 256) as u8);
        i = i + 1;
        assert(bytes@ =~= head + unit_bytes(units@.take(i as int)));
    }
    assert(units@.take(i as int) =~= units@);
    bytes.push(0);
    bytes.push(0);
    assert(bytes@ =~= string_bytes(units@));
    bytes
}

fn encode_array(elements: &[u64]) -> (bytes: Vec<u8>)
    ensures
        bytes@ == array_bytes(elements@),
        bytes@.len() == ARRAY_DATA + 8 * elements@.len(),
{
    proof {
        lemma_auto_spec_u64_to_from_le_bytes();
    }
    let mut bytes = zeros(ARRAY_LENGTH);
    let mut len = u64_to_le_bytes(elements.len() as u64);
    bytes.append(&mut len);
    let ghost head = bytes@;
    let mut i: usize = 0;
    assert(word_bytes(elements@.take(0)) =~= Seq::<u8>::empty());
    assert(bytes@ =~= head + word_bytes(elements@.take(0)));
    while i < elements.len()
        invariant
            i <= elements@.len(),
            head.len() == ARRAY_DATA,
            bytes@ == head + word_bytes(elements@.take(i as int)),
            bytes@.len() == ARRAY_DATA + 8 * i,
        decreases elements@.len() - i,
    {
        proof {
            lemma_auto_spec_u64_to_from_le_bytes();
            assert(elements@.take(i + 1).drop_last() =~= elements@.take(i as int));
        }
        let ghost before = bytes@;
        let mut word = u64_to_le_bytes(elements[i]);
        let ghost new = word@;
        bytes.append(&mut word);
        i = i + 1;
        assert(bytes@ =~= head + word_bytes(elements@.take(i as int)));
    }
    assert(elements@.take(i as int) =~= elements@);
    bytes
}

fn encode_slots(values: &Vec<u64>) -> (bytes: Vec<u8>)
    requires
        values@.len() <= u32::MAX,
    ensures
        bytes@ == slots_bytes(values@),
        bytes@.len() == ARRAY_DATA + SLOT_SIZE * values@.len(),
{
    proof {
        lemma_auto_spec_u64_to_from_le_bytes();
    }
    let mut bytes = zeros(ARRAY_LENGTH);
    let mut len = u64_to_le_bytes(values.len() as u64);
    bytes.append(&mut len);
    let ghost head = bytes@;
    let mut i: usize = 0;
    assert(slot_bytes(values@.take(0)) =~= Seq::<u8>::empty());
    assert(bytes@ =~= head + slot_bytes(values@.take(0)));
    while i < values.len()
        invariant
            i <= values@.len(),
            values@.len() <= u32::MAX,
            head.len() == ARRAY_DATA,
            bytes@ == head + slot_bytes(values@.take(i as int)),
            bytes@.len() == ARRAY_DATA + SLOT_SIZE * i,
        decreases values@.len() - i,
    {
        proof {
            lemma_auto_spec_u64_to_from_le_bytes();
            lemma_auto_spec_u32_to_from_le_bytes();
            assert(values@.take(i + 1).drop_last() =~= values@.take(i as int));
        }
        let mut hash = u32_to_le_bytes(i as u32);
        bytes.append(&mut hash);
        bytes.push(0);
        bytes.push(0);
        bytes.push(0);
        bytes.push(0);
        let mut word = u64_to_le_bytes(values[i]);
        bytes.append(&mut word);
        i = i + 1;
        assert(bytes@ =~= head + slot_bytes(values@.take(i as int)));
    }
    assert(values@.take(i as int) =~= values@);
    bytes
}

/// One loaded game, as the splitter would find it.
pub struct Scene<'a> {
    fixture: &'a Fixture,
    builder: Builder,
    /// Everything the DI container will hold, in the order it was created.
    singletons: Vec<u64>,
    /// The shared validation target every service points at.
    event_bus: Object,
    /// Whether the runtime holds a reference to the container itself.
    referenced: bool,
}

/// What a [`Scene`] is.
pub struct SceneView {
    pub fixture: Fixture,
    pub world: BuilderView,
    pub singletons: Seq<u64>,
    pub event_bus: u64,
    pub referenced: bool,
}

impl SceneView {
    /// How large an object of the class is.
    pub open spec fn size(self, image: Seq<char>, class: Seq<char>) -> int {
        match self.world.layout(image, class) {
            Some(layout) => layout.instance_size as int,
            None => 0,
        }
    }

    /// Whether an object of the class can be placed.
    pub open spec fn can_place(self, image: Seq<char>, class: Seq<char>) -> bool {
        &&& self.world.layout(image, class) is Some
        &&& self.world.has_room(self.size(image, class))
        &&& self.world.can_refer()
    }

    /// With an object of the class, which the runtime holds a reference to.
    pub open spec fn placing(self, image: Seq<char>, class: Seq<char>) -> Self {
        SceneView {
            world: self.world.with_object(
                (self.world.layout(image, class)->0).vtable,
                self.size(image, class),
            ).referring(self.world.next()),
            ..self
        }
    }

    /// With bytes in a field of an object.
    pub open spec fn setting(
        self,
        image: Seq<char>,
        class: Seq<char>,
        address: u64,
        field: Seq<char>,
        bytes: Seq<u8>,
    ) -> Self {
        let offset = offset_in(self.fixture, image, class, field)->0;
        SceneView { world: self.world.wrote((address + offset) as u64, bytes), ..self }
    }

    /// Whether the object's field lies on the heap.
    pub open spec fn can_set(
        self,
        image: Seq<char>,
        class: Seq<char>,
        address: u64,
        field: Seq<char>,
    ) -> bool {
        &&& offset_in(self.fixture, image, class, field) is Some
        &&& HEAP_BASE <= address
        &&& address - HEAP_BASE + offset_in(self.fixture, image, class, field)->0 + 8
            <= self.world.heap.len()
    }

    /// With `bytes` behind everything on the heap.
    pub open spec fn with_bytes(self, bytes: Seq<u8>) -> Self {
        SceneView {
            world: self.world.reserved(bytes.len() as int).wrote(self.world.next(), bytes),
            ..self
        }
    }

    /// With one more thing in the container.
    pub open spec fn registering(self, address: u64) -> Self {
        SceneView { singletons: self.singletons.push(address), ..self }
    }

    /// With an object whose `_eventBus` is wired up, in the container.
    pub open spec fn with_service(self, image: Seq<char>, class: Seq<char>) -> Self {
        self.placing(image, class).setting(
            image,
            class,
            self.world.next(),
            "_eventBus"@,
            spec_u64_to_le_bytes(self.event_bus),
        ).registering(self.world.next())
    }
}

impl<'a> View for Scene<'a> {
    type V = SceneView;

    closed spec fn view(&self) -> SceneView {
        SceneView {
            fixture: *self.fixture,
            world: self.builder@,
            singletons: self.singletons@,
            event_bus: self.event_bus.address,
            referenced: self.referenced,
        }
    }
}

/// A class known to the fixture is known to the builder, and its fields lie
/// inside its objects.
proof fn lemma_fits(
    fixture: Fixture,
    builder: Builder,
    image: Seq<char>,
    class: Seq<char>,
    field: Seq<char>,
)
    requires
        builder.wf(),
        builder@.classes == class_views(fixture.classes@),
        agree(builder@.classes),
        offset_in(fixture, image, class, field) is Some,
    ensures
        builder@.layout(image, class) is Some,
        offset_in(fixture, image, class, field)->0 + 8 <= (builder@.layout(
            image,
            class,
        )->0).instance_size,
{
    let classes = builder@.classes;
    let facts = fixture.classed(image, class)->0;
    let i = lemma_class_from(fixture.classes@, image, class, 0);
    assert(classes[i] == facts@);
    let at = lemma_class_at(classes, image, class, classes.len() as int, i);
    builder.lemma_fits(at);
    let found = facts.named(field)->0;
    let k = lemma_field_from(facts.fields@, field, 0);
    assert(facts@.fields[k] == found@);
    lemma_reach(facts@.fields, false, facts@.fields.len() as int, k);
}

proof fn lemma_class_from(classes: Seq<ClassFacts>, image: Seq<char>, name: Seq<char>, i: int) -> (k:
    int)
    requires
        0 <= i,
        class_from(classes, image, name, i) is Some,
    ensures
        i <= k < classes.len(),
        classes[k] == class_from(classes, image, name, i)->0,
        classes[k].image@ == image,
        classes[k].name@ == name,
    decreases classes.len() - i,
{
    if classes[i].image@ == image && classes[i].name@ == name {
        i
    } else {
        lemma_class_from(classes, image, name, i + 1)
    }
}

proof fn lemma_field_from(fields: Seq<FieldFacts>, name: Seq<char>, i: int) -> (k: int)
    requires
        0 <= i,
        field_from(fields, name, i) is Some,
    ensures
        i <= k < fields.len(),
        fields[k] == field_from(fields, name, i)->0,
    decreases fields.len() - i,
{
    if fields[i]@.goes_by(name) {
        i
    } else {
        lemma_field_from(fields, name, i + 1)
    }
}

proof fn lemma_class_at(
    classes: Seq<ClassView>,
    image: Seq<char>,
    name: Seq<char>,
    n: int,
    i: int,
) -> (at: int)
    requires
        0 <= i < n <= classes.len(),
        classes[i].image == image,
        classes[i].name == name,
        agree(classes),
    ensures
        class_at(classes, image, name, n) == at,
        0 <= at < n,
        classes[at] == classes[i],
    decreases n,
{
    if classes[n - 1].image == image && classes[n - 1].name == name {
        n - 1
    } else {
        lemma_class_at(classes, image, name, n - 1, i)
    }
}

impl<'a> Scene<'a> {
    /// The builder holds the fixture's classes, and the event bus is one.
    pub closed spec fn wf(self) -> bool {
        &&& self.builder.wf()
        &&& self.event_bus.image@ == "Timberborn.SingletonSystem"@
        &&& self.event_bus.class@ == "EventBus"@
        &&& self.builder@.classes == class_views(self.fixture.classes@)
        &&& agree(self.builder@.classes)
    }

    /// An empty scene: an event bus, and nothing else yet.
    ///
    /// The bus comes first because it is what makes anything else findable:
    /// almost every service is validated by its `_eventBus` pointing here.
    pub fn new(fixture: &'a Fixture) -> (scene: Self)
        requires
            room_for(class_views(fixture.classes@)) <= SPAN,
            agree(class_views(fixture.classes@)),
            fixture.classed("Timberborn.SingletonSystem"@, "EventBus"@) is Some,
            instance_size(fixture.classed("Timberborn.SingletonSystem"@, "EventBus"@)->0@) <= SPAN,
        ensures
            scene.wf(),
            scene@.fixture == *fixture,
            scene@.world.classes == class_views(fixture.classes@),
            scene@.event_bus == HEAP_BASE,
            scene@.singletons == seq![HEAP_BASE],
            scene@.referenced,
            ({
                let vtable = (scene@.world.layout(
                    "Timberborn.SingletonSystem"@,
                    "EventBus"@,
                )->0).vtable;
                let size = scene@.size("Timberborn.SingletonSystem"@, "EventBus"@);
                &&& scene@.world.heap == overwritten(
                    grown(Seq::empty(), size),
                    0,
                    spec_u64_to_le_bytes(vtable),
                )
                &&& scene@.world.table == Some(
                    overwritten(grown(Seq::empty(), 8), 0, spec_u64_to_le_bytes(HEAP_BASE)),
                )
            }),
    {
        let mut builder = fixture.builder();
        proof {
            let i = lemma_class_from(
                fixture.classes@,
                "Timberborn.SingletonSystem"@,
                "EventBus"@,
                0,
            );
            assert(builder@.classes[i] == fixture.classes@[i]@);
            let at = lemma_class_at(
                builder@.classes,
                "Timberborn.SingletonSystem"@,
                "EventBus"@,
                builder@.classes.len() as int,
                i,
            );
            builder.lemma_fits(at);
            assert(aligned(0) == 0);
            assert(builder@.heap =~= Seq::<u8>::empty());
        }
        let address = builder.new_object("Timberborn.SingletonSystem", "EventBus", 0);
        let event_bus = Object {
            address,
            image: owned("Timberborn.SingletonSystem"),
            class: owned("EventBus"),
        };
        let mut singletons: Vec<u64> = Vec::new();
        singletons.push(address);
        assert(singletons@ =~= seq![HEAP_BASE]);
        Scene { fixture, builder, singletons, event_bus, referenced: true }
    }

    /// The same scene, with a container that the runtime holds no reference to:
    /// alive on the heap, but not in the table.
    pub fn container_unreferenced(self) -> (scene: Self)
        requires
            self.wf(),
        ensures
            scene.wf(),
            scene@ == (SceneView { referenced: false, ..self@ }),
    {
        let mut scene = self;
        scene.referenced = false;
        scene
    }

    /// The same scene, with no table of references in the process at all.
    pub fn without_reference_table(self) -> (scene: Self)
        requires
            self.wf(),
        ensures
            scene.wf(),
            scene@ == (SceneView { world: BuilderView { table: None, ..self@.world }, ..self@ }),
    {
        let Scene { fixture, builder, singletons, event_bus, referenced } = self;
        Scene { fixture, builder: builder.without_table(), singletons, event_bus, referenced }
    }

    /// The event bus every service is validated through.
    pub fn event_bus(&self) -> (bus: &Object)
        requires
            self.wf(),
        ensures
            bus.address == self@.event_bus,
            bus.image@ == "Timberborn.SingletonSystem"@,
            bus.class@ == "EventBus"@,
    {
        &self.event_bus
    }

    /// The builder underneath, for anything this does not model.
    pub fn builder(&mut self) -> (builder: &mut Builder)
        requires
            old(self).wf(),
        ensures
            builder.wf(),
            builder@ == old(self)@.world,
            final(self)@ == (SceneView { world: final(builder)@, ..old(self)@ }),
            final(builder).wf() && final(builder)@.classes == old(self)@.world.classes
                ==> final(self).wf(),
    {
        &mut self.builder
    }

    /// A bare object of a class: no fields set, not in the container.
    pub fn object(&mut self, image: &str, class: &str) -> (object: Object)
        requires
            old(self).wf(),
            old(self)@.can_place(image@, class@),
        ensures
            final(self).wf(),
            final(self)@ == old(self)@.placing(image@, class@),
            object.address == old(self)@.world.next(),
            object.image@ == image@,
            object.class@ == class@,
    {
        proof {
            let classes = self.builder@.classes;
            let i = class_at(classes, image@, class@, classes.len() as int);
            lemma_found(classes, image@, class@, classes.len() as int);
            self.builder.lemma_fits(i);
        }
        let address = self.builder.new_object(image, class, 0);
        Object { address, image: owned(image), class: owned(class) }
    }

    /// A DI service: an object with its `_eventBus` wired up, registered in the
    /// container.
    ///
    /// Both halves matter and for different reasons. The bus is what makes a
    /// heap scan accept the object as a real instance rather than as loose
    /// memory that happens to start with the right pointer. The container is how
    /// the splitter reaches it without scanning for each one separately.
    pub fn service(&mut self, image: &str, class: &str) -> (object: Object)
        requires
            old(self).wf(),
            old(self)@.can_place(image@, class@),
            offset_in(old(self)@.fixture, image@, class@, "_eventBus"@) is Some,
        ensures
            final(self).wf(),
            final(self)@ == old(self)@.with_service(image@, class@),
            object.address == old(self)@.world.next(),
            object.image@ == image@,
            object.class@ == class@,
    {
        proof {
            lemma_fits(*self.fixture, self.builder, image@, class@, "_eventBus"@);
        }
        let object = self.object(image, class);
        let bus: u64 = self.event_bus.address;
        self.set_ptr(&object, "_eventBus", bus);
        self.singletons.push(object.address);
        object
    }

    /// Puts an existing object in the DI container.
    ///
    /// For the ones that are singletons but are not services with an event bus
    /// of their own.
    pub fn register(&mut self, object: &Object)
        requires
            old(self).wf(),
        ensures
            final(self).wf(),
            final(self)@ == old(self)@.registering(object.address),
    {
        self.singletons.push(object.address);
    }

    /// Writes a reference into a field, by name.
    pub fn set_ptr(&mut self, object: &Object, field: &str, value: u64)
        requires
            old(self).wf(),
            old(self)@.can_set(object.image@, object.class@, object.address, field@),
        ensures
            final(self).wf(),
            final(self)@ == old(self)@.setting(
                object.image@,
                object.class@,
                object.address,
                field@,
                spec_u64_to_le_bytes(value),
            ),
    {
        let offset = self.offset(object, field);
        self.builder.write_u64(object.address + offset, value);
    }

    /// Writes a 32-bit field, by name. The day counter, a population count.
    pub fn set_i32(&mut self, object: &Object, field: &str, value: i32)
        requires
            old(self).wf(),
            old(self)@.can_set(object.image@, object.class@, object.address, field@),
        ensures
            final(self).wf(),
            final(self)@ == old(self)@.setting(
                object.image@,
                object.class@,
                object.address,
                field@,
                spec_u32_to_le_bytes(value as u32),
            ),
    {
        let offset = self.offset(object, field);
        self.builder.write_u32(object.address + offset, value as u32);
    }

    /// Writes a single byte, by name. A `bool` in the game is one.
    pub fn set_u8(&mut self, object: &Object, field: &str, value: u8)
        requires
            old(self).wf(),
            old(self)@.can_set(object.image@, object.class@, object.address, field@),
        ensures
            final(self).wf(),
            final(self)@ == old(self)@.setting(
                object.image@,
                object.class@,
                object.address,
                field@,
                seq![value],
            ),
    {
        let offset = self.offset(object, field);
        let bytes: Vec<u8> = vec![value];
        assert(bytes@ =~= seq![value]);
        self.builder.write(object.address + offset, bytes.as_slice());
    }

    fn offset(&self, object: &Object, field: &str) -> (offset: u64)
        requires
            offset_in(self@.fixture, object.image@, object.class@, field@) is Some,
        ensures
            offset == offset_in(self@.fixture, object.image@, object.class@, field@)->0,
            self@.world.heap.len() <= SPAN,
    {
        let len: u64 = self.builder.heap_len();
        match find_offset(self.fixture, object.image.as_str(), object.class.as_str(), field) {
            Some(offset) => offset as u64,
            None => 0,
        }
    }

    /// A `MonoString`, for a template name or a save name.
    pub fn string(&mut self, text: &str) -> (address: u64)
        requires
            old(self).wf(),
            old(self)@.world.has_room(string_bytes(utf16(text@)).len() as int),
            utf16(text@).len() <= u32::MAX,
        ensures
            final(self).wf(),
            address == old(self)@.world.next(),
            final(self)@ == old(self)@.with_bytes(string_bytes(utf16(text@))),
    {
        let units = utf16_units(text);
        let bytes = encode_string(&units);
        self.place(bytes)
    }

    /// A `MonoArray` of references.
    pub fn array(&mut self, elements: &[u64]) -> (address: u64)
        requires
            old(self).wf(),
            old(self)@.world.has_room(ARRAY_DATA + 8 * elements@.len()),
        ensures
            final(self).wf(),
            address == old(self)@.world.next(),
            final(self)@ == old(self)@.with_bytes(array_bytes(elements@)),
    {
        let bytes = encode_array(elements);
        self.place(bytes)
    }

    /// Places bytes on the heap.
    fn place(&mut self, bytes: Vec<u8>) -> (address: u64)
        requires
            old(self).wf(),
            old(self)@.world.has_room(bytes@.len() as int),
        ensures
            final(self).wf(),
            address == old(self)@.world.next(),
            final(self)@ == old(self)@.with_bytes(bytes@),
    {
        let address = self.builder.reserve(bytes.len() as u64);
        self.builder.write(address, bytes.as_slice());
        address
    }
}

/// Where a field of a nameless layout sits, from the fixture: of the class
/// reached by walking a path rather than by its name.
pub open spec fn instance_offset_in(fixture: Fixture, reached_by: Seq<char>, field: Seq<char>) -> Option<
    u32,
> {
    offset_in(fixture, Seq::empty(), reached_by, field)
}

/// Where the objects that a scene's strings are end up, one behind the other.
pub open spec fn with_strings(view: SceneView, texts: Seq<Seq<char>>) -> SceneView
    decreases texts.len(),
{
    if texts.len() == 0 {
        view
    } else {
        with_strings(view, texts.drop_last()).with_bytes(string_bytes(utf16(texts.last())))
    }
}

/// The addresses of those strings.
pub open spec fn string_places(view: SceneView, texts: Seq<Seq<char>>) -> Seq<u64>
    decreases texts.len(),
{
    if texts.len() == 0 {
        Seq::empty()
    } else {
        string_places(view, texts.drop_last()).push(
            with_strings(view, texts.drop_last()).world.next(),
        )
    }
}

/// A scene with a `List<T>` in it: its elements, then the list itself.
pub open spec fn with_list(view: SceneView, reached_by: Seq<char>, elements: Seq<u64>) -> SceneView {
    let items = view.world.next();
    let stored = view.with_bytes(array_bytes(elements));
    let object = stored.world.next();
    stored.placing(Seq::empty(), reached_by).setting(
        Seq::empty(),
        reached_by,
        object,
        "_items"@,
        spec_u64_to_le_bytes(items),
    ).setting(
        Seq::empty(),
        reached_by,
        object,
        "_size"@,
        spec_u32_to_le_bytes(elements.len() as u32),
    )
}

/// A scene with a `HashSet<string>` in it: its strings, its slots, then the set
/// itself.
pub open spec fn with_set(view: SceneView, reached_by: Seq<char>, values: Seq<Seq<char>>) -> SceneView {
    let named = with_strings(view, values);
    let places = string_places(view, values);
    let slots = named.world.next();
    let stored = named.with_bytes(slots_bytes(places));
    let object = stored.world.next();
    let count = spec_u32_to_le_bytes(values.len() as u32);
    stored.placing(Seq::empty(), reached_by).setting(
        Seq::empty(),
        reached_by,
        object,
        "_slots"@,
        spec_u64_to_le_bytes(slots),
    ).setting(Seq::empty(), reached_by, object, "_count"@, count).setting(
        Seq::empty(),
        reached_by,
        object,
        "_lastIndex"@,
        count,
    )
}

/// What the text of several strings is.
pub open spec fn texts_of(values: Seq<&str>) -> Seq<Seq<char>> {
    values.map_values(|value: &str| value@)
}

impl<'a> Scene<'a> {
    /// An object of a nameless class.
    fn instance(&mut self, reached_by: &str) -> (object: Object)
        requires
            old(self).wf(),
            old(self)@.can_place(Seq::empty(), reached_by@),
        ensures
            final(self).wf(),
            final(self)@ == old(self)@.placing(Seq::empty(), reached_by@),
            object.address == old(self)@.world.next(),
            object.image@ == Seq::<char>::empty(),
            object.class@ == reached_by@,
    {
        proof {
            reveal_strlit("");
            assert(""@ =~= Seq::<char>::empty());
        }
        self.object("", reached_by)
    }

    /// A `List<T>` of references, laid out as the fixture measured one.
    ///
    /// `reached_by` says *which* list: each instantiation is its own class with
    /// its own offsets, and the fixture identifies one by the path walked to
    /// reach it rather than by a name.
    pub fn list(&mut self, reached_by: &str, elements: &[u64]) -> (address: u64)
        requires
            old(self).wf(),
            elements@.len() <= i32::MAX,
            instance_offset_in(old(self)@.fixture, reached_by@, "_items"@) is Some,
            instance_offset_in(old(self)@.fixture, reached_by@, "_size"@) is Some,
            old(self)@.world.has_room(ARRAY_DATA + 8 * elements@.len()),
            old(self)@.with_bytes(array_bytes(elements@)).can_place(Seq::empty(), reached_by@),
        ensures
            final(self).wf(),
            address == old(self)@.with_bytes(array_bytes(elements@)).world.next(),
            final(self)@ == with_list(old(self)@, reached_by@, elements@),
    {
        proof {
            lemma_fits(*self.fixture, self.builder, Seq::empty(), reached_by@, "_items"@);
            lemma_fits(*self.fixture, self.builder, Seq::empty(), reached_by@, "_size"@);
        }
        let items = self.array(elements);
        let object = self.instance(reached_by);
        self.set_ptr(&object, "_items", items);
        self.set_u32(&object, "_size", elements.len() as u32);
        object.address
    }

    /// Writes an unsigned 32-bit field, by name.
    fn set_u32(&mut self, object: &Object, field: &str, value: u32)
        requires
            old(self).wf(),
            old(self)@.can_set(object.image@, object.class@, object.address, field@),
        ensures
            final(self).wf(),
            final(self)@ == old(self)@.setting(
                object.image@,
                object.class@,
                object.address,
                field@,
                spec_u32_to_le_bytes(value),
            ),
    {
        let offset = self.offset(object, field);
        self.builder.write_u32(object.address + offset, value);
    }

    /// A `HashSet<string>` holding `values`, every slot occupied.
    ///
    /// No free slots and no hashing: the splitter walks the used region and
    /// compares strings, and never looks a value up by hash. Modelling the
    /// buckets would be modelling Mono rather than what is read.
    pub fn hash_set(&mut self, reached_by: &str, values: &Vec<&str>) -> (address: u64)
        requires
            old(self).wf(),
            values@.len() <= i32::MAX,
            instance_offset_in(old(self)@.fixture, reached_by@, "_slots"@) is Some,
            instance_offset_in(old(self)@.fixture, reached_by@, "_count"@) is Some,
            instance_offset_in(old(self)@.fixture, reached_by@, "_lastIndex"@) is Some,
            forall|n: int|
                0 <= n < values@.len() ==> {
                    let text = utf16(#[trigger] texts_of(values@)[n]);
                    &&& text.len() <= u32::MAX
                    &&& with_strings(old(self)@, texts_of(values@).take(n)).world.has_room(
                        string_bytes(text).len() as int,
                    )
                },
            with_strings(old(self)@, texts_of(values@)).world.has_room(
                ARRAY_DATA + SLOT_SIZE * values@.len(),
            ),
            with_strings(old(self)@, texts_of(values@)).with_bytes(
                slots_bytes(string_places(old(self)@, texts_of(values@))),
            ).can_place(Seq::empty(), reached_by@),
        ensures
            final(self).wf(),
            final(self)@ == with_set(old(self)@, reached_by@, texts_of(values@)),
            address == with_strings(old(self)@, texts_of(values@)).with_bytes(
                slots_bytes(string_places(old(self)@, texts_of(values@))),
            ).world.next(),
    {
        let ghost texts = texts_of(values@);
        let ghost start = self@;
        let mut strings: Vec<u64> = Vec::new();
        let mut i: usize = 0;
        assert(with_strings(start, texts.take(0)) == start);
        assert(string_places(start, texts.take(0)) =~= Seq::<u64>::empty());
        while i < values.len()
            invariant
                i <= values@.len(),
                self.wf(),
                texts == texts_of(values@),
                strings@.len() == i,
                self@ == with_strings(start, texts.take(i as int)),
                strings@ == string_places(start, texts.take(i as int)),
                self.fixture == old(self).fixture,
                forall|n: int|
                    0 <= n < values@.len() ==> {
                        let text = utf16(#[trigger] texts[n]);
                        &&& text.len() <= u32::MAX
                        &&& with_strings(start, texts.take(n)).world.has_room(
                            string_bytes(text).len() as int,
                        )
                    },
            decreases values@.len() - i,
        {
            proof {
                assert(texts[i as int] == values@[i as int]@);
                assert(texts.take(i + 1).drop_last() =~= texts.take(i as int));
                assert(texts.take(i + 1).last() == texts[i as int]);
            }
            let address = self.string(values[i]);
            strings.push(address);
            i = i + 1;
        }
        assert(texts.take(i as int) =~= texts);
        let bytes = encode_slots(&strings);
        let slots = self.place(bytes);
        proof {
            lemma_fits(*self.fixture, self.builder, Seq::empty(), reached_by@, "_slots"@);
            lemma_fits(*self.fixture, self.builder, Seq::empty(), reached_by@, "_count"@);
            lemma_fits(*self.fixture, self.builder, Seq::empty(), reached_by@, "_lastIndex"@);
        }
        let object = self.instance(reached_by);
        self.set_ptr(&object, "_slots", slots);
        self.set_u32(&object, "_count", strings.len() as u32);
        self.set_u32(&object, "_lastIndex", strings.len() as u32);
        object.address
    }
}

impl SceneView {
    /// Whether so many bytes more fit on the heap, and so many entries in the
    /// runtime's table, padding included.
    pub open spec fn is_roomy(self, len: int, entries: int) -> bool {
        &&& self.world.heap.len() + len <= SPAN
        &&& self.world.table matches Some(table) ==> table.len() + 16 * entries <= SPAN
    }
}

/// A scene with a scene loader in it: the asset loader that validates it, the
/// parameters of the scene last asked for, and what those hold.
pub open spec fn with_loader(
    view: SceneView,
    loading: bool,
    image: Seq<char>,
    params_class: Seq<char>,
    held: Option<Seq<char>>,
) -> SceneView {
    let asset = view.world.next();
    let one = view.placing("Timberborn.AssetSystem"@, "AssetLoader"@);
    let params = one.world.next();
    let two = one.placing(image, params_class);
    let three = match held {
        Some(field) => SceneView { world: two.world.reserved(0x20), ..two }.setting(
            image,
            params_class,
            params,
            field,
            spec_u64_to_le_bytes(two.world.next()),
        ),
        None => two,
    };
    let loader = three.world.next();
    let own = "Timberborn.SceneLoading"@;
    let class = "SceneLoader"@;
    three.placing(own, class).setting(
        own,
        class,
        loader,
        "_assetLoader"@,
        spec_u64_to_le_bytes(asset),
    ).setting(own, class, loader, "_sceneParameters"@, spec_u64_to_le_bytes(params)).setting(
        own,
        class,
        loader,
        "_isLoading"@,
        seq![
            if loading {
                1u8
            } else {
                0u8
            },
        ],
    )
}

/// Where that scene loader is.
pub open spec fn loader_place(
    view: SceneView,
    image: Seq<char>,
    params_class: Seq<char>,
    held: Option<Seq<char>>,
) -> u64 {
    let two = view.placing("Timberborn.AssetSystem"@, "AssetLoader"@).placing(image, params_class);
    match held {
        Some(_) => two.world.reserved(0x20).next(),
        None => two.world.next(),
    }
}

/// Whether the fixture has what a scene loader needs, and the world the room.
pub open spec fn can_load(
    view: SceneView,
    image: Seq<char>,
    params_class: Seq<char>,
    held: Option<Seq<char>>,
) -> bool {
    let own = "Timberborn.SceneLoading"@;
    let class = "SceneLoader"@;
    &&& view.world.layout("Timberborn.AssetSystem"@, "AssetLoader"@) is Some
    &&& view.world.layout(image, params_class) is Some
    &&& held matches Some(field) ==> offset_in(view.fixture, image, params_class, field) is Some
    &&& offset_in(view.fixture, own, class, "_assetLoader"@) is Some
    &&& offset_in(view.fixture, own, class, "_sceneParameters"@) is Some
    &&& offset_in(view.fixture, own, class, "_isLoading"@) is Some
    &&& view.is_roomy(
        view.size("Timberborn.AssetSystem"@, "AssetLoader"@) + view.size(image, params_class)
            + view.size(own, class) + 0x40,
        3,
    )
}

/// A scene with an entity in it.
pub open spec fn with_entity(view: SceneView, name: Seq<char>, state: i32) -> SceneView {
    let component = "Timberborn.BaseComponentSystem"@;
    let (before, cache) = with_cache(view, name, state);
    before.placing(component, "BaseComponent"@).setting(
        component,
        "BaseComponent"@,
        before.world.next(),
        "_componentCache"@,
        spec_u64_to_le_bytes(cache),
    )
}

/// Where an entity's component is.
pub open spec fn component_place(view: SceneView, name: Seq<char>, state: i32) -> u64 {
    with_cache(view, name, state).0.world.next()
}

/// A scene with all of an entity but its component, and where the component
/// cache is: the one that names it, and lists its block state.
pub open spec fn with_cache(view: SceneView, name: Seq<char>, state: i32) -> (SceneView, u64) {
    let state_image = "Timberborn.BlockSystem"@;
    let state_class = "BlockObjectState"@;
    let component = "Timberborn.BaseComponentSystem"@;
    let block = view.world.next();
    let one = view.placing(state_image, state_class).setting(
        state_image,
        state_class,
        block,
        "_state"@,
        spec_u32_to_le_bytes(state as u32),
    );
    let components = one.with_bytes(array_bytes(seq![block])).world.next();
    let two = with_list(one, COMPONENT_LIST@, seq![block]);
    let cache = two.world.next();
    let three = two.placing(component, "ComponentCache"@);
    let text = three.world.next();
    let four = three.with_bytes(string_bytes(utf16(name))).setting(
        component,
        "ComponentCache"@,
        cache,
        "_name"@,
        spec_u64_to_le_bytes(text),
    ).setting(component, "ComponentCache"@, cache, "_components"@, spec_u64_to_le_bytes(components));
    (four, cache)
}

/// Whether the fixture has what an entity needs, and the world the room.
pub open spec fn can_build(view: SceneView, name: Seq<char>) -> bool {
    let component = "Timberborn.BaseComponentSystem"@;
    &&& offset_in(view.fixture, "Timberborn.BlockSystem"@, "BlockObjectState"@, "_state"@) is Some
    &&& instance_offset_in(view.fixture, COMPONENT_LIST@, "_items"@) is Some
    &&& instance_offset_in(view.fixture, COMPONENT_LIST@, "_size"@) is Some
    &&& offset_in(view.fixture, component, "ComponentCache"@, "_name"@) is Some
    &&& offset_in(view.fixture, component, "ComponentCache"@, "_components"@) is Some
    &&& offset_in(view.fixture, component, "BaseComponent"@, "_componentCache"@) is Some
    &&& utf16(name).len() <= 0x1000_0000
    &&& view.is_roomy(
        view.size("Timberborn.BlockSystem"@, "BlockObjectState"@) + view.size(
            Seq::empty(),
            COMPONENT_LIST@,
        ) + view.size(component, "ComponentCache"@) + view.size(component, "BaseComponent"@) + 2
            * utf16(name).len() + 0x80,
        4,
    )
}

impl<'a> Scene<'a> {
    /// The scene loader, and what it says was last loaded.
    ///
    /// `new_game` distinguishes a fresh settlement from a loaded save, which the
    /// splitter reads off the parameters object rather than off any process-wide
    /// state: two fields, exactly one of which is set. Any non-null reference
    /// will do: the splitter asks whether the field is set, not what it points
    /// at.
    pub fn scene_loader(&mut self, loading: bool, new_game: bool) -> (object: Object)
        requires
            old(self).wf(),
            can_load(
                old(self)@,
                "Timberborn.GameSceneLoading"@,
                "GameSceneParameters"@,
                Some(
                    if new_game {
                        "<NewGameConfiguration>k__BackingField"@
                    } else {
                        "<SaveReference>k__BackingField"@
                    },
                ),
            ),
        ensures
            final(self).wf(),
            ({
                let held = Some(
                    if new_game {
                        "<NewGameConfiguration>k__BackingField"@
                    } else {
                        "<SaveReference>k__BackingField"@
                    },
                );
                let image = "Timberborn.GameSceneLoading"@;
                let class = "GameSceneParameters"@;
                &&& final(self)@ == with_loader(old(self)@, loading, image, class, held)
                &&& object.address == loader_place(old(self)@, image, class, held)
            }),
            object.image@ == "Timberborn.SceneLoading"@,
            object.class@ == "SceneLoader"@,
    {
        let field = if new_game {
            "<NewGameConfiguration>k__BackingField"
        } else {
            "<SaveReference>k__BackingField"
        };
        self.loader(loading, "Timberborn.GameSceneLoading", "GameSceneParameters", Some(field))
    }

    /// A scene loader for a scene that is not a game: the main menu, or the map
    /// editor.
    pub fn scene_loader_for(&mut self, loading: bool, image: &str, params_class: &str) -> (object:
        Object)
        requires
            old(self).wf(),
            can_load(old(self)@, image@, params_class@, None),
        ensures
            final(self).wf(),
            final(self)@ == with_loader(old(self)@, loading, image@, params_class@, None),
            object.address == loader_place(old(self)@, image@, params_class@, None),
            object.image@ == "Timberborn.SceneLoading"@,
            object.class@ == "SceneLoader"@,
    {
        self.loader(loading, image, params_class, None)
    }

    fn loader(&mut self, loading: bool, image: &str, params_class: &str, held: Option<&str>) -> (object:
        Object)
        requires
            old(self).wf(),
            can_load(
                old(self)@,
                image@,
                params_class@,
                match held {
                    Some(field) => Some(field@),
                    None => None,
                },
            ),
        ensures
            final(self).wf(),
            ({
                let field = match held {
                    Some(field) => Some(field@),
                    None => None,
                };
                &&& final(self)@ == with_loader(
                    old(self)@,
                    loading,
                    image@,
                    params_class@,
                    field,
                )
                &&& object.address == loader_place(old(self)@, image@, params_class@, field)
            }),
            object.image@ == "Timberborn.SceneLoading"@,
            object.class@ == "SceneLoader"@,
    {
        let ghost own = "Timberborn.SceneLoading"@;
        let ghost class = "SceneLoader"@;
        proof {
            lemma_fits(*self.fixture, self.builder, own, class, "_assetLoader"@);
            lemma_fits(*self.fixture, self.builder, own, class, "_sceneParameters"@);
            lemma_fits(*self.fixture, self.builder, own, class, "_isLoading"@);
            if held is Some {
                lemma_fits(*self.fixture, self.builder, image@, params_class@, held->0@);
            }
        }
        // Not a DI service, so it is validated through the asset loader it
        // holds rather than through an event bus.
        let asset_loader = self.object("Timberborn.AssetSystem", "AssetLoader");
        let params = self.object(image, params_class);
        match held {
            Some(field) => {
                let configuration = self.builder.reserve(0x20);
                self.set_ptr(&params, field, configuration);
            },
            None => {},
        }
        let loader = self.object("Timberborn.SceneLoading", "SceneLoader");
        self.set_ptr(&loader, "_assetLoader", asset_loader.address);
        self.set_ptr(&loader, "_sceneParameters", params.address);
        self.set_u8(
            &loader,
            "_isLoading",
            if loading {
                1
            } else {
                0
            },
        );
        loader
    }

    /// One entity, as the splitter reads it: a `BaseComponent` whose component
    /// cache names the template and lists the components.
    ///
    /// `state` is the `BlockObjectState._state` the splitter tests to tell a
    /// finished building from a construction site. The cache name is the live
    /// form, `<template>.EntityComponent`: prefabs use the bare template name,
    /// and the splitter accepts both, which is why this uses the one a running
    /// game has.
    #[verifier::spinoff_prover]
    #[verifier::rlimit(40)]
    pub fn entity(&mut self, template: &str, state: i32) -> (entity: Entity)
        requires
            old(self).wf(),
            can_build(old(self)@, template@ + ".EntityComponent"@),
        ensures
            final(self).wf(),
            final(self)@ == with_entity(old(self)@, template@ + ".EntityComponent"@, state),
            entity.block_state.address == old(self)@.world.next(),
            entity.block_state.image@ == "Timberborn.BlockSystem"@,
            entity.block_state.class@ == "BlockObjectState"@,
            entity.component.address == component_place(
                old(self)@,
                template@ + ".EntityComponent"@,
                state,
            ),
            entity.component.image@ == "Timberborn.BaseComponentSystem"@,
            entity.component.class@ == "BaseComponent"@,
    {
        let ghost component = "Timberborn.BaseComponentSystem"@;
        proof {
            lemma_fits(
                *self.fixture,
                self.builder,
                "Timberborn.BlockSystem"@,
                "BlockObjectState"@,
                "_state"@,
            );
            lemma_fits(*self.fixture, self.builder, Seq::empty(), COMPONENT_LIST@, "_items"@);
            lemma_fits(*self.fixture, self.builder, Seq::empty(), COMPONENT_LIST@, "_size"@);
            lemma_fits(*self.fixture, self.builder, component, "ComponentCache"@, "_name"@);
            lemma_fits(*self.fixture, self.builder, component, "ComponentCache"@, "_components"@);
            lemma_fits(
                *self.fixture,
                self.builder,
                component,
                "BaseComponent"@,
                "_componentCache"@,
            );
        }
        let block_state = self.object("Timberborn.BlockSystem", "BlockObjectState");
        self.set_i32(&block_state, "_state", state);
        let held: Vec<u64> = vec![block_state.address];
        assert(held@ =~= seq![block_state.address]);
        proof {
            lemma_array_len(held@);
        }
        let components = self.list(COMPONENT_LIST, held.as_slice());
        let cache = self.object("Timberborn.BaseComponentSystem", "ComponentCache");
        let mut text = owned(template);
        text.append(".EntityComponent");
        proof {
            lemma_string_len(utf16(text@));
        }
        let name = self.string(text.as_str());
        self.set_ptr(&cache, "_name", name);
        self.set_ptr(&cache, "_components", components);
        let entity = self.object("Timberborn.BaseComponentSystem", "BaseComponent");
        self.set_ptr(&entity, "_componentCache", cache.address);
        Entity { component: entity, block_state }
    }
}

proof fn lemma_array_len(elements: Seq<u64>)
    ensures
        array_bytes(elements).len() == ARRAY_DATA + 8 * elements.len(),
{
    lemma_auto_spec_u64_to_from_le_bytes();
    lemma_word_bytes_len(elements);
}

proof fn lemma_word_bytes_len(words: Seq<u64>)
    ensures
        word_bytes(words).len() == 8 * words.len(),
    decreases words.len(),
{
    lemma_auto_spec_u64_to_from_le_bytes();
    if words.len() > 0 {
        lemma_word_bytes_len(words.drop_last());
    }
}

proof fn lemma_string_len(units: Seq<u16>)
    ensures
        string_bytes(units).len() == STRING_CHARS + 2 * units.len() + 2,
{
    lemma_auto_spec_u32_to_from_le_bytes();
}

/// A scene with its container built: the array of everything registered, the
/// listener that holds it, and the repository that holds the listener.
pub open spec fn with_container(view: SceneView) -> SceneView {
    let own = "Timberborn.SingletonSystem"@;
    let array = view.world.next();
    let one = view.with_bytes(array_bytes(view.singletons));
    let listener = one.world.next();
    let two = one.placing(own, "SingletonListener"@).setting(
        own,
        "SingletonListener"@,
        listener,
        "_allSingletons"@,
        spec_u64_to_le_bytes(array),
    );
    let repository = two.world.next();
    let three = if view.referenced {
        two.placing(own, "SingletonRepository"@)
    } else {
        SceneView {
            world: two.world.with_object(
                (two.world.layout(own, "SingletonRepository"@)->0).vtable,
                two.size(own, "SingletonRepository"@),
            ),
            ..two
        }
    };
    three.setting(
        own,
        "SingletonRepository"@,
        repository,
        "_singletonListener"@,
        spec_u64_to_le_bytes(listener),
    )
}

/// Where the listener of the container is.
pub open spec fn listener_place(view: SceneView) -> u64 {
    view.with_bytes(array_bytes(view.singletons)).world.next()
}

/// Where the container's repository is.
pub open spec fn repository_place(view: SceneView) -> u64 {
    let own = "Timberborn.SingletonSystem"@;
    let heap = view.with_bytes(array_bytes(view.singletons)).world.heap;
    let size = view.size(own, "SingletonListener"@);
    (HEAP_BASE + aligned(aligned(heap.len() as int) + size)) as u64
}

/// Whether memory leads from the container's repository to its listener, and from
/// there to an array of everything that was registered: all of it, in order.
pub open spec fn leads_to_all<M: Memory>(memory: &M, view: SceneView) -> bool {
    let own = "Timberborn.SingletonSystem"@;
    let repository = repository_place(view);
    let listener = listener_place(view);
    let array = view.world.next();
    let held = offset_in(view.fixture, own, "SingletonRepository"@, "_singletonListener"@)->0;
    let all = offset_in(view.fixture, own, "SingletonListener"@, "_allSingletons"@)->0;
    &&& held >= 8 ==> u64_at(memory, repository) == Some(
        (view.world.layout(own, "SingletonRepository"@)->0).vtable,
    )
    &&& u64_at(memory, (repository + held) as u64) == Some(listener)
    &&& all >= 8 ==> u64_at(memory, listener) == Some(
        (view.world.layout(own, "SingletonListener"@)->0).vtable,
    )
    &&& u64_at(memory, (listener + all) as u64) == Some(array)
    &&& u64_at(memory, (array + ARRAY_LENGTH) as u64) == Some(view.singletons.len() as u64)
    &&& forall|i: int|
        0 <= i < view.singletons.len() ==> u64_at(memory, (array + ARRAY_DATA + 8 * i) as u64)
            == Some(#[trigger] view.singletons[i])
}

/// A word behind others is where it was put.
proof fn lemma_word_at(words: Seq<u64>, i: int)
    requires
        0 <= i < words.len(),
    ensures
        word_bytes(words).len() == 8 * words.len(),
        word_bytes(words).subrange(8 * i, 8 * i + 8) == spec_u64_to_le_bytes(words[i]),
    decreases words.len(),
{
    lemma_auto_spec_u64_to_from_le_bytes();
    lemma_word_bytes_len(words);
    let front = words.drop_last();
    lemma_word_bytes_len(front);
    if i < front.len() {
        lemma_word_at(front, i);
        assert(word_bytes(words).subrange(8 * i, 8 * i + 8) =~= word_bytes(front).subrange(
            8 * i,
            8 * i + 8,
        ));
    } else {
        assert(word_bytes(words).subrange(8 * i, 8 * i + 8) =~= spec_u64_to_le_bytes(words[i]));
    }
}

/// An array behind what is on a heap: its length, and its elements.
proof fn lemma_array_words(heap: Seq<u8>, elements: Seq<u64>)
    requires
        elements.len() <= u64::MAX,
    ensures
        ({
            let at = aligned(heap.len() as int);
            let bytes = array_bytes(elements);
            let after = overwritten(grown(heap, bytes.len() as int), at, bytes);
            &&& after.len() == at + ARRAY_DATA + 8 * elements.len()
            &&& word(after, at + ARRAY_LENGTH) == elements.len()
            &&& forall|i: int|
                0 <= i < elements.len() ==> word(after, at + ARRAY_DATA + 8 * i)
                    == #[trigger] elements[i]
        }),
{
    lemma_auto_spec_u64_to_from_le_bytes();
    lemma_array_len(elements);
    let at = aligned(heap.len() as int);
    let bytes = array_bytes(elements);
    let before = grown(heap, bytes.len() as int);
    let after = overwritten(before, at, bytes);
    lemma_grown(heap, bytes.len() as int);
    lemma_word_bytes_len(elements);
    let length = spec_u64_to_le_bytes(elements.len() as u64);
    assert(after.subrange(at + ARRAY_LENGTH, at + ARRAY_LENGTH + 8) =~= length);
    assert forall|i: int| 0 <= i < elements.len() implies word(after, at + ARRAY_DATA + 8 * i)
        == #[trigger] elements[i] by {
        lemma_word_at(elements, i);
        let from = at + ARRAY_DATA + 8 * i;
        assert(after.subrange(from, from + 8) =~= word_bytes(elements).subrange(8 * i, 8 * i + 8));
    }
}

/// An object behind what is on a heap, with a reference in one of its fields:
/// both are there, and so is everything that was.
proof fn lemma_object_words(heap: Seq<u8>, size: int, vtable: u64, offset: int, value: u64)
    requires
        0 <= offset,
        offset + 8 <= size,
    ensures
        ({
            let at = aligned(heap.len() as int);
            let placed = overwritten(grown(heap, size), at, spec_u64_to_le_bytes(vtable));
            let after = overwritten(placed, at + offset, spec_u64_to_le_bytes(value));
            &&& after.len() == at + size
            &&& word(after, at + offset) == value
            &&& offset >= 8 ==> word(after, at) == vtable
            &&& forall|o: int| 0 <= o && o + 8 <= heap.len() ==> #[trigger] word(after, o) == word(
                heap,
                o,
            )
        }),
{
    lemma_auto_spec_u64_to_from_le_bytes();
    lemma_grown(heap, size);
    let at = aligned(heap.len() as int);
    let reserved = grown(heap, size);
    let placed = overwritten(reserved, at, spec_u64_to_le_bytes(vtable));
    let after = overwritten(placed, at + offset, spec_u64_to_le_bytes(value));
    lemma_overwritten(reserved, at, spec_u64_to_le_bytes(vtable));
    lemma_overwritten(placed, at + offset, spec_u64_to_le_bytes(value));
    assert forall|o: int| 0 <= o && o + 8 <= heap.len() implies #[trigger] word(after, o) == word(
        heap,
        o,
    ) by {
        assert(word(after, o) == word(placed, o));
        assert(word(placed, o) == word(reserved, o));
        assert(reserved.subrange(o, o + 8) =~= heap.subrange(o, o + 8));
    }
}

/// A word on the heap of a process is what was built there.
proof fn lemma_heap_word(memory: SparseMemory, view: BuilderView, o: int)
    requires
        is_built(memory@, view),
        0 <= o,
        o + 8 <= view.heap.len() <= SPAN,
    ensures
        u64_at(&memory, (HEAP_BASE + o) as u64) == Some(word(view.heap, o)),
{
    let blocks = memory@;
    let address = (HEAP_BASE + o) as u64;
    let rest = blocks_of(view);
    assert(blocks.len() == rest.len() + 2) by {
        assert(blocks.skip(2).len() == blocks.len() - 2);
    }
    assert(blocks[2] == rest[0] && blocks[3] == rest[1]) by {
        assert(blocks.skip(2)[0] == blocks[2]);
        assert(blocks.skip(2)[1] == blocks[3]);
    }
    if blocks.len() == 5 {
        assert(blocks[4] == rest[2]) by {
            assert(blocks.skip(2)[2] == blocks[4]);
        }
        assert(blocks.drop_last().last() == blocks[3]);
        assert(last_at(blocks, address) == last_at(blocks.drop_last(), address));
    }
    assert(last_at(blocks, address) == 3);
    assert(padded(view.heap).subrange(o, o + 8) =~= view.heap.subrange(o, o + 8));
}

/// What is built of a scene leads from the container to everything in it.
proof fn lemma_leads_to_all(view: SceneView, memory: SparseMemory)
    requires
        is_built(memory@, with_container(view).world),
        can_finish(view),
        with_container(view).world.heap.len() <= SPAN,
        view.world.layout("Timberborn.SingletonSystem"@, "SingletonListener"@) is Some,
        view.world.layout("Timberborn.SingletonSystem"@, "SingletonRepository"@) is Some,
        offset_in(
            view.fixture,
            "Timberborn.SingletonSystem"@,
            "SingletonListener"@,
            "_allSingletons"@,
        )->0 + 8 <= view.size("Timberborn.SingletonSystem"@, "SingletonListener"@),
        offset_in(
            view.fixture,
            "Timberborn.SingletonSystem"@,
            "SingletonRepository"@,
            "_singletonListener"@,
        )->0 + 8 <= view.size("Timberborn.SingletonSystem"@, "SingletonRepository"@),
    ensures
        leads_to_all(&memory, view),
{
    let own = "Timberborn.SingletonSystem"@;
    let held = offset_in(view.fixture, own, "SingletonRepository"@, "_singletonListener"@)->0;
    let all = offset_in(view.fixture, own, "SingletonListener"@, "_allSingletons"@)->0;
    let listened = view.size(own, "SingletonListener"@);
    let kept = view.size(own, "SingletonRepository"@);
    let vtables = (
        (view.world.layout(own, "SingletonListener"@)->0).vtable,
        (view.world.layout(own, "SingletonRepository"@)->0).vtable,
    );
    let world = with_container(view).world;
    let array = view.world.next();
    let at = aligned(view.world.heap.len() as int);
    let bytes = array_bytes(view.singletons);
    lemma_grown(view.world.heap, bytes.len() as int);
    lemma_array_words(view.world.heap, view.singletons);
    let one = overwritten(grown(view.world.heap, bytes.len() as int), at, bytes);
    assert(view.with_bytes(bytes).world.heap == one);
    let first = aligned(one.len() as int);
    lemma_grown(one, listened);
    lemma_object_words(one, listened, vtables.0, all as int, array);
    let two = overwritten(
        overwritten(grown(one, listened), first, spec_u64_to_le_bytes(vtables.0)),
        first + all,
        spec_u64_to_le_bytes(array),
    );
    let listener = listener_place(view);
    let second = aligned(two.len() as int);
    lemma_grown(two, kept);
    lemma_object_words(two, kept, vtables.1, held as int, listener);
    let three = overwritten(
        overwritten(grown(two, kept), second, spec_u64_to_le_bytes(vtables.1)),
        second + held,
        spec_u64_to_le_bytes(listener),
    );
    assert(world.heap == three);
    assert(repository_place(view) == HEAP_BASE + second);
    assert(listener == HEAP_BASE + first);
    lemma_heap_word(memory, world, second + held);
    lemma_heap_word(memory, world, second);
    lemma_heap_word(memory, world, first + all);
    lemma_heap_word(memory, world, first);
    lemma_heap_word(memory, world, at + ARRAY_LENGTH);
    assert(word(three, first + all) == word(two, first + all));
    assert(word(three, first) == word(two, first));
    assert(word(two, at + ARRAY_LENGTH) == word(one, at + ARRAY_LENGTH));
    assert(word(three, at + ARRAY_LENGTH) == word(two, at + ARRAY_LENGTH));
    assert forall|i: int| 0 <= i < view.singletons.len() implies u64_at(
        &memory,
        (array + ARRAY_DATA + 8 * i) as u64,
    ) == Some(#[trigger] view.singletons[i]) by {
        let o = at + ARRAY_DATA + 8 * i;
        lemma_heap_word(memory, world, o);
        assert(word(two, o) == word(one, o));
        assert(word(three, o) == word(two, o));
    }
}

/// Whether the fixture has what the container needs, and the world the room.
pub open spec fn can_finish(view: SceneView) -> bool {
    let own = "Timberborn.SingletonSystem"@;
    &&& offset_in(view.fixture, own, "SingletonListener"@, "_allSingletons"@) is Some
    &&& offset_in(view.fixture, own, "SingletonRepository"@, "_singletonListener"@) is Some
    &&& view.is_roomy(
        8 * view.singletons.len() + view.size(own, "SingletonListener"@) + view.size(
            own,
            "SingletonRepository"@,
        ) + 0x60,
        2,
    )
}

impl<'a> Scene<'a> {
    /// Builds the DI container over everything registered, and hands over the
    /// process.
    ///
    /// The container comes last because `_allSingletons` is an array, and an
    /// array has to know its length. That is true of the game as well:
    /// registering another singleton replaces the array rather than growing it.
    pub fn finish(self) -> (process: FakeProcess<SparseMemory>)
        requires
            self.wf(),
            can_finish(self@),
        ensures
            process.pid == PID,
            process.name@ == "Unity Main Thre"@,
            process.path matches Some(path) && path@ == "/synthetic/"@ + self@.world.game_version
                + "/Timberborn.exe"@,
            process.open,
            is_built(process.memory@, with_container(self@).world),
            process.ranges@ == ranges_of(process.memory@),
            are_loaded(process.modules@),
            leads_to_all(&process.memory, self@),
            process.runtime matches Some(module) && describes_all(
                module,
                self@.world.classes,
                self@.world.layouts,
            ),
    {
        let (process, _) = self.finish_live();
        process
    }

    /// The process, and a handle for changing it while the splitter runs.
    pub fn finish_live(self) -> (result: (FakeProcess<SparseMemory>, Live<'a>))
        requires
            self.wf(),
            can_finish(self@),
        ensures
            result.0.pid == PID,
            result.0.name@ == "Unity Main Thre"@,
            result.0.path matches Some(path) && path@ == "/synthetic/"@ + self@.world.game_version
                + "/Timberborn.exe"@,
            result.0.open,
            is_built(result.0.memory@, with_container(self@).world),
            result.0.ranges@ == ranges_of(result.0.memory@),
            are_loaded(result.0.modules@),
            leads_to_all(&result.0.memory, self@),
            result.0.runtime matches Some(module) && describes_all(
                module,
                self@.world.classes,
                self@.world.layouts,
            ),
            result.1.fixture() == self@.fixture,
    {
        let ghost own = "Timberborn.SingletonSystem"@;
        let mut scene = self;
        proof {
            lemma_fits(
                *scene.fixture,
                scene.builder,
                own,
                "SingletonListener"@,
                "_allSingletons"@,
            );
            lemma_fits(
                *scene.fixture,
                scene.builder,
                own,
                "SingletonRepository"@,
                "_singletonListener"@,
            );
            lemma_array_len(scene.singletons@);
        }
        let mut singletons: Vec<u64> = Vec::new();
        let mut i: usize = 0;
        while i < scene.singletons.len()
            invariant
                i <= scene.singletons@.len(),
                singletons@ == scene.singletons@.take(i as int),
            decreases scene.singletons@.len() - i,
        {
            singletons.push(scene.singletons[i]);
            i = i + 1;
            assert(singletons@ =~= scene.singletons@.take(i as int));
        }
        assert(singletons@ =~= scene.singletons@);
        let array = scene.array(singletons.as_slice());
        let listener = scene.object("Timberborn.SingletonSystem", "SingletonListener");
        scene.set_ptr(&listener, "_allSingletons", array);
        let repository = if scene.referenced {
            scene.object("Timberborn.SingletonSystem", "SingletonRepository")
        } else {
            proof {
                let classes = scene.builder@.classes;
                let k = class_at(classes, own, "SingletonRepository"@, classes.len() as int);
                lemma_found(classes, own, "SingletonRepository"@, classes.len() as int);
                scene.builder.lemma_fits(k);
            }
            let address = scene.builder.new_loose(
                "Timberborn.SingletonSystem",
                "SingletonRepository",
                0,
            );
            Object {
                address,
                image: owned("Timberborn.SingletonSystem"),
                class: owned("SingletonRepository"),
            }
        };
        scene.set_ptr(&repository, "_singletonListener", listener.address);
        let Scene { fixture, builder, singletons: _, event_bus: _, referenced: _ } = scene;
        let len: u64 = builder.heap_len();
        let process = builder.finish();
        proof {
            lemma_leads_to_all(self@, process.memory);
        }
        (process, Live { fixture })
    }
}

/// A built world that a scenario keeps changing.
///
/// The same writes [`Scene`] does, against the process the splitter is already
/// attached to. Only *changes*: nothing new can be placed, because a process's
/// memory map is fixed once it exists, exactly as the game's regions are while
/// a run is played. A scenario therefore builds everything the run will ever
/// need and then reveals it.
pub struct Live<'a> {
    fixture: &'a Fixture,
}

impl<'a> Live<'a> {
    /// The fixture that fields are looked up in.
    pub closed spec fn fixture(self) -> Fixture {
        *self.fixture
    }

    /// Writes a reference into a field, by name.
    pub fn set_ptr(&self, memory: &mut SparseMemory, object: &Object, field: &str, value: u64)
        requires
            can_poke(
                old(memory)@,
                self.fixture(),
                object.image@,
                object.class@,
                object.address,
                field@,
                8,
            ),
        ensures
            final(memory)@ == poked_field(
                old(memory)@,
                self.fixture(),
                object.image@,
                object.class@,
                object.address,
                field@,
                spec_u64_to_le_bytes(value),
            ),
    {
        proof {
            lemma_auto_spec_u64_to_from_le_bytes();
        }
        let bytes = u64_to_le_bytes(value);
        self.poke(
            memory,
            object.image.as_str(),
            object.class.as_str(),
            object.address,
            field,
            bytes.as_slice(),
        );
    }

    /// Writes a 32-bit field, by name.
    pub fn set_i32(&self, memory: &mut SparseMemory, object: &Object, field: &str, value: i32)
        requires
            can_poke(
                old(memory)@,
                self.fixture(),
                object.image@,
                object.class@,
                object.address,
                field@,
                4,
            ),
        ensures
            final(memory)@ == poked_field(
                old(memory)@,
                self.fixture(),
                object.image@,
                object.class@,
                object.address,
                field@,
                spec_u32_to_le_bytes(value as u32),
            ),
    {
        proof {
            lemma_auto_spec_u32_to_from_le_bytes();
        }
        let bytes = u32_to_le_bytes(value as u32);
        self.poke(
            memory,
            object.image.as_str(),
            object.class.as_str(),
            object.address,
            field,
            bytes.as_slice(),
        );
    }

    /// Writes a single byte, by name.
    pub fn set_u8(&self, memory: &mut SparseMemory, object: &Object, field: &str, value: u8)
        requires
            can_poke(
                old(memory)@,
                self.fixture(),
                object.image@,
                object.class@,
                object.address,
                field@,
                1,
            ),
        ensures
            final(memory)@ == poked_field(
                old(memory)@,
                self.fixture(),
                object.image@,
                object.class@,
                object.address,
                field@,
                seq![value],
            ),
    {
        let bytes: Vec<u8> = vec![value];
        assert(bytes@ =~= seq![value]);
        self.poke(
            memory,
            object.image.as_str(),
            object.class.as_str(),
            object.address,
            field,
            bytes.as_slice(),
        );
    }

    /// Sets a field of one of the nameless layouts: a list's `_size`, a set's
    /// `_count`. Growing those is how a scenario makes something appear.
    pub fn set_instance_i32(
        &self,
        memory: &mut SparseMemory,
        reached_by: &str,
        object: u64,
        field: &str,
        value: i32,
    )
        requires
            can_poke(
                old(memory)@,
                self.fixture(),
                Seq::empty(),
                reached_by@,
                object,
                field@,
                4,
            ),
        ensures
            final(memory)@ == poked_field(
                old(memory)@,
                self.fixture(),
                Seq::empty(),
                reached_by@,
                object,
                field@,
                spec_u32_to_le_bytes(value as u32),
            ),
    {
        proof {
            lemma_auto_spec_u32_to_from_le_bytes();
            reveal_strlit("");
            assert(""@ =~= Seq::<char>::empty());
        }
        let bytes = u32_to_le_bytes(value as u32);
        self.poke(memory, "", reached_by, object, field, bytes.as_slice());
    }

    fn poke(
        &self,
        memory: &mut SparseMemory,
        image: &str,
        class: &str,
        address: u64,
        field: &str,
        bytes: &[u8],
    )
        requires
            can_poke(
                old(memory)@,
                self.fixture(),
                image@,
                class@,
                address,
                field@,
                bytes@.len(),
            ),
        ensures
            final(memory)@ == poked_field(
                old(memory)@,
                self.fixture(),
                image@,
                class@,
                address,
                field@,
                bytes@,
            ),
    {
        match find_offset(self.fixture, image, class, field) {
            Some(offset) => {
                memory.poke(address + offset as u64, bytes);
            },
            None => {},
        }
    }
}

/// Whether a field of an object is in memory.
pub open spec fn can_poke(
    blocks: Seq<(u64, Seq<u8>)>,
    fixture: Fixture,
    image: Seq<char>,
    class: Seq<char>,
    address: u64,
    field: Seq<char>,
    len: nat,
) -> bool {
    &&& offset_in(fixture, image, class, field) is Some
    &&& address + offset_in(fixture, image, class, field)->0 <= u64::MAX
    &&& in_one_block(
        blocks,
        (address + offset_in(fixture, image, class, field)->0) as u64,
        len,
    ) is Some
}

/// Memory with `bytes` in a field of an object.
pub open spec fn poked_field(
    blocks: Seq<(u64, Seq<u8>)>,
    fixture: Fixture,
    image: Seq<char>,
    class: Seq<char>,
    address: u64,
    field: Seq<char>,
    bytes: Seq<u8>,
) -> Seq<(u64, Seq<u8>)> {
    poked(blocks, (address + offset_in(fixture, image, class, field)->0) as u64, bytes)
}

proof fn lemma_found(classes: Seq<ClassView>, image: Seq<char>, name: Seq<char>, n: int)
    requires
        n <= classes.len(),
    ensures
        class_at(classes, image, name, n) < n || n <= 0,
        class_at(classes, image, name, n) >= 0 ==> class_at(classes, image, name, n)
            < classes.len(),
    decreases n,
{
    if n > 0 {
        lemma_found(classes, image, name, n - 1);
    }
}

} // verus!
