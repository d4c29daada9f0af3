//! Fixtures: what they say, and how they are written down.
use timberborn_autosplitter::fixture::{
    fixture_names, ClassFacts, Fault, FieldFacts, Fixture, Sources, Wanted,
};

fn small() -> Fixture {
    Fixture {
        game_version: "1.0 \"beta\"\\\n".to_string(),
        build_id: Some(17),
        sources: Sources { snapshot: "a".to_string(), managed: "b".to_string() },
        classes: vec![
            ClassFacts {
                image: "Game".to_string(),
                namespace: "Game.Time".to_string(),
                name: "Clock".to_string(),
                fields: vec![
                    FieldFacts {
                        name: "<Day>k__BackingField".to_string(),
                        requested: Some("Day".to_string()),
                        declared_type: "int".to_string(),
                        is_static: false,
                        offset: 24,
                    },
                    FieldFacts {
                        name: "_shared".to_string(),
                        requested: None,
                        declared_type: "string".to_string(),
                        is_static: true,
                        offset: 8,
                    },
                ],
            },
            ClassFacts {
                image: "Game".to_string(),
                namespace: "Game".to_string(),
                name: "Bus".to_string(),
                fields: vec![],
            },
        ],
    }
}

#[test]
fn a_fixture_is_written_one_field_a_line() {
    assert_eq!(
        small().to_json(),
        "{\n  \"format\": 1,\n  \"game_version\": \"1.0 \\\"beta\\\"\\\\\\n\",\n  \"build_id\": 17,\n  \
         \"sources\": {\n    \"snapshot\": \"a\",\n    \"managed\": \"b\"\n  },\n  \"classes\": [\n    {\n      \
         \"image\": \"Game\",\n      \"namespace\": \"Game.Time\",\n      \"name\": \"Clock\",\n      \
         \"fields\": [\n        { \"name\": \"<Day>k__BackingField\", \"requested\": \"Day\", \"type\": \"int\", \
         \"static\": false, \"offset\": 24 },\n        { \"name\": \"_shared\", \"type\": \"string\", \
         \"static\": true, \"offset\": 8 }\n      ]\n    },\n    {\n      \"image\": \"Game\",\n      \
         \"namespace\": \"Game\",\n      \"name\": \"Bus\",\n      \"fields\": []\n    }\n  ]\n}\n"
    );
}

fn read(text: &str) -> Fixture {
    match Fixture::from_json(text) {
        Ok(fixture) => fixture,
        Err(fault) => panic!("{}", fault.text()),
    }
}

#[test]
fn a_fixture_reads_back_as_it_was_written() {
    let fixture = small();
    let again = read(&fixture.to_json());
    assert_eq!(again.game_version, fixture.game_version);
    assert_eq!(again.build_id, Some(17));
    assert_eq!(again.sources.snapshot, "a");
    assert_eq!(again.sources.managed, "b");
    assert_eq!(again.classes.len(), 2);
    let clock = &again.classes[0];
    assert_eq!(clock.image, "Game");
    assert_eq!(clock.namespace, "Game.Time");
    assert_eq!(clock.name, "Clock");
    assert_eq!(clock.fields.len(), 2);
    assert_eq!(clock.fields[0].requested.as_deref(), Some("Day"));
    assert_eq!(clock.fields[0].offset, 24);
    assert_eq!(clock.fields[1].requested, None);
    assert_eq!(clock.fields[1].declared_type, "string");
    assert!(clock.fields[1].is_static);
    assert_eq!(again.to_json(), fixture.to_json());
}

#[test]
fn a_control_character_survives_the_file() {
    let mut fixture = small();
    fixture.game_version = "\u{1}\u{8}\u{c}\t\r\u{1f}\u{7f}é".to_string();
    let json = fixture.to_json();
    assert!(json.contains("\"\\u0001\\b\\f\\t\\r\\u001f\u{7f}é\""), "{json}");
    assert_eq!(read(&json).game_version, fixture.game_version);
}

#[test]
fn what_may_be_absent_may_be_absent() {
    let fixture = read("{\"format\": 1, \"game_version\": \"v\", \"classes\": []}");
    assert_eq!(fixture.game_version, "v");
    assert_eq!(fixture.build_id, None);
    assert_eq!(fixture.sources.snapshot, "");
    assert_eq!(fixture.sources.managed, "");
    assert!(fixture.classes.is_empty());
    assert!(!fixture.to_json().contains("build_id"));
    let odd = read("{\"format\": 1, \"game_version\": \"v\", \"classes\": [], \"build_id\": \"x\", \"sources\": {\"snapshot\": 3}}");
    assert_eq!(odd.build_id, None);
    assert_eq!(odd.sources.snapshot, "");
}

fn fault(text: &str) -> Fault {
    match Fixture::from_json(text) {
        Ok(_) => panic!("{text} reads"),
        Err(fault) => fault,
    }
}

fn class(entries: &str) -> String {
    format!("{{\"format\": 1, \"game_version\": \"v\", \"classes\": [{{{entries}}}]}}")
}

fn field(entries: &str) -> String {
    class(&format!(
        "\"image\": \"I\", \"name\": \"N\", \"namespace\": \"I\", \"fields\": [{{{entries}}}]"
    ))
}

#[test]
fn every_fault_is_named() {
    let broken = fault("{");
    assert!(matches!(broken, Fault::NotJson(_)));
    assert!(broken.text().starts_with("not JSON: EOF"), "{}", broken.text());
    assert_eq!(
        fault("{\"format\": 1,}").text(),
        "not JSON: trailing comma at line 1 column 14"
    );
    let said = |text: &str| fault(text).text();
    assert_eq!(said("{}"), "the fixture has no \"format\"");
    assert_eq!(said("{\"format\": \"1\"}"), "the fixture's \"format\" is not a number");
    assert_eq!(said("{\"format\": -1}"), "the fixture's \"format\" is not a number");
    assert_eq!(
        said("{\"format\": 2}"),
        "fixture format 2, but this harness reads 1; regenerate it with `cargo fixture`"
    );
    assert_eq!(said("{\"format\": 1}"), "the fixture has no \"classes\"");
    assert_eq!(
        said("{\"format\": 1, \"classes\": {}}"),
        "the fixture's \"classes\" is not an array"
    );
    assert_eq!(said("{\"format\": 1, \"classes\": []}"), "the fixture has no \"game_version\"");
    assert_eq!(
        said("{\"format\": 1, \"classes\": [], \"game_version\": null}"),
        "the fixture: \"game_version\" is not a string"
    );
    assert_eq!(said(&class("")), "class 0 has no \"image\"");
    assert_eq!(said(&class("\"image\": 1")), "class 0: \"image\" is not a string");
    assert_eq!(said(&class("\"image\": \"I\"")), "class 0 has no \"name\"");
    assert_eq!(said(&class("\"image\": \"I\", \"name\": \"N\"")), "I/N has no \"fields\"");
    assert_eq!(
        said(&class("\"image\": \"I\", \"name\": \"N\", \"fields\": 0")),
        "I/N: \"fields\" is not an array"
    );
    assert_eq!(
        said(&class("\"image\": \"I\", \"name\": \"N\", \"fields\": []")),
        "I/N has no \"namespace\""
    );
    assert_eq!(said(&field("")), "I/N has no \"name\"");
    assert_eq!(said(&field("\"name\": \"f\"")), "I/N.f has no \"type\"");
    assert_eq!(said(&field("\"name\": \"f\", \"type\": \"t\"")), "I/N.f has no \"static\"");
    assert_eq!(
        said(&field("\"name\": \"f\", \"type\": \"t\", \"static\": 0")),
        "I/N.f: \"static\" is not a boolean"
    );
    assert_eq!(
        said(&field("\"name\": \"f\", \"type\": \"t\", \"static\": true")),
        "I/N.f has no \"offset\""
    );
    let long = fault(&field(
        "\"name\": \"f\", \"type\": \"t\", \"static\": true, \"offset\": 4294967296",
    ));
    assert!(matches!(long, Fault::Not { wanted: Wanted::Offset, .. }));
    assert_eq!(long.text(), "I/N.f: \"offset\" is not a 32-bit number");
}

#[test]
fn classes_and_fields_are_found_by_name() {
    let fixture = small();
    let clock = fixture.class("Game", "Clock").expect("the clock");
    assert_eq!(clock.field("Day").map(|f| f.offset), Some(24));
    assert_eq!(clock.field("<Day>k__BackingField").map(|f| f.offset), Some(24));
    assert_eq!(clock.field("Night").map(|f| f.offset), None);
    assert_eq!(clock.fields[0].requested_name(), "Day");
    assert_eq!(clock.fields[1].requested_name(), "_shared");
    assert!(fixture.class("Game", "Day").is_none());
    assert!(fixture.class("Other", "Clock").is_none());
}

#[test]
fn fixtures_are_taken_in_the_order_of_their_names() {
    let names: Vec<String> = ["b.json", "README.md", "a.json", ".json", "1.10.json", "1.9.json", "json"]
        .iter()
        .map(|name| name.to_string())
        .collect();
    assert_eq!(fixture_names(&names), ["1.10.json", "1.9.json", "a.json", "b.json"]);
}
