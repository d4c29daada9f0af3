//! Captures: written, opened, stacked and replayed.
use timberborn_autosplitter::memory::{flags, Memory, MemoryRange, ModuleInfo};
use timberborn_autosplitter::scenario::{advance_process, Scenario};
use timberborn_autosplitter::snapshot::find::{Capture, Lack, Shelf};
use timberborn_autosplitter::snapshot::index::{decode_index, encode_index, Chunk};
use timberborn_autosplitter::snapshot::manifest::{Manifest, Metadata, Step};
use timberborn_autosplitter::snapshot::writer::Writer;
use timberborn_autosplitter::snapshot::{Refused, Snapshot, CHUNK};

/// What a capture's directory holds.
struct Dir {
    name: String,
    manifest: String,
    index: Vec<u8>,
    blob: Vec<u8>,
}

fn range(address: u64, size: u64, flags: u64) -> MemoryRange {
    MemoryRange { address, size, flags }
}

fn open(dir: &Dir, base: Option<Snapshot>) -> Snapshot {
    match Snapshot::open(&dir.name, &dir.manifest, &dir.index, dir.blob.clone(), base) {
        Ok(snapshot) => snapshot,
        Err(refused) => panic!("{}", refused.text(&dir.name, "")),
    }
}

fn sample() -> Dir {
    let mut metadata = Metadata::default();
    metadata.game_version = "1.1.2.4-52e959e-sw".into();
    metadata.build_id = "25096761".into();
    metadata.label = "sample".into();
    metadata.captured_at = "0".into();
    metadata.process_name = "Unity Main Thre".into();
    metadata.process_path = Some("/games/Timberborn.exe".into());
    metadata.pid = 4242;
    metadata.notes = "folktails\nday 3".into();
    metadata.frozen = true;
    metadata.satisfies = vec!["run-finished".into(), "main-menu".into()];
    let mut writer = Writer::create(metadata);
    writer.add_modules(vec![ModuleInfo {
        name: "mono-2.0-bdwgc.dll".into(),
        address: 0x7000_0000,
        size: 0x30_0000,
        path: None,
    }]);
    let mut blob = Vec::new();
    blob.extend(writer.add_range(range(0x1000, 4, flags::HEAP), Some(&[1, 2, 3, 4])));
    // Deliberately out of address order: the reader must sort.
    blob.extend(writer.add_range(range(0x9000, 4, flags::READ), Some(&[9, 9, 9, 9])));
    blob.extend(writer.add_range(
        range(0x5000, 8, flags::HEAP),
        Some(&[5, 6, 7, 8, 9, 10, 11, 12]),
    ));
    // Listed but unreadable, which really happens during a capture.
    blob.extend(writer.add_range(range(0x7000, 16, flags::READ), None));
    assert_eq!(writer.bytes_written(), 16);
    assert_eq!(writer.skipped(), 1);
    let files = writer.finish();
    Dir { name: "sample".into(), manifest: files.manifest, index: files.index, blob }
}

#[test]
fn round_trips_metadata_and_modules() {
    let snapshot = open(&sample(), None);

    assert_eq!(snapshot.metadata.game_version, "1.1.2.4-52e959e-sw");
    assert_eq!(snapshot.metadata.build_id, "25096761");
    assert_eq!(snapshot.metadata.pid, 4242);
    assert_eq!(snapshot.metadata.process_name, "Unity Main Thre");
    assert_eq!(snapshot.metadata.notes, "folktails\nday 3");
    // What searching runs on, so it has to survive the round trip.
    assert!(snapshot.metadata.frozen);
    assert_eq!(snapshot.metadata.satisfies, ["run-finished", "main-menu"]);
    assert_eq!(snapshot.modules.len(), 1);
    assert_eq!(snapshot.modules[0].address, 0x7000_0000);
    assert_eq!(snapshot.ranges.len(), 4);
    assert_eq!(snapshot.captured_bytes(), 16);
}

#[test]
fn serves_the_bytes_back_at_their_addresses() {
    let snapshot = open(&sample(), None);

    let mut buf = [0u8; 4];
    assert!(snapshot.read(0x1000, &mut buf));
    assert_eq!(buf, [1, 2, 3, 4]);

    // A range written after a higher one still reads correctly, which is the
    // whole point of sorting on load.
    assert!(snapshot.read(0x9000, &mut buf));
    assert_eq!(buf, [9, 9, 9, 9]);

    // Partway into a range.
    let mut buf = [0u8; 2];
    assert!(snapshot.read(0x5002, &mut buf));
    assert_eq!(buf, [7, 8]);
}

#[test]
fn refuses_reads_it_cannot_honour() {
    let snapshot = open(&sample(), None);
    let mut buf = [0u8; 4];

    assert!(!snapshot.read(0x0, &mut buf), "below every range");
    assert!(!snapshot.read(0x2000, &mut buf), "in a gap between ranges");
    assert!(!snapshot.read(0xF000, &mut buf), "above every range");
    assert!(
        !snapshot.read(0x1002, &mut buf),
        "running off the end of a range, rather than reading a neighbour's bytes"
    );
    assert!(
        !snapshot.read(0x7000, &mut buf),
        "a range that was listed but could not be captured"
    );
}

/// A part of what one read gives reads the same on its own.
#[test]
fn a_capture_reads_the_same_in_parts() {
    let snapshot = open(&sample(), None);
    let mut whole = [0u8; 8];
    assert!(snapshot.read(0x5000, &mut whole));
    for at in 0..8usize {
        for end in at + 1..=8 {
            let mut part = vec![0u8; end - at];
            assert!(snapshot.read(0x5000 + at as u64, &mut part));
            assert_eq!(part, whole[at..end]);
        }
    }
}

#[test]
fn an_empty_range_reads_back_empty() {
    let mut writer = Writer::create(metadata("empty"));
    let mut blob = writer.add_range(range(0x3000, 0, flags::HEAP), Some(&[]));
    blob.extend(writer.add_range(range(0x4000, 2, flags::HEAP), Some(&[4, 5])));
    let files = writer.finish();
    let dir = Dir { name: "empty".into(), manifest: files.manifest, index: files.index, blob };
    let snapshot = open(&dir, None);
    assert_eq!(snapshot.ranges.len(), 2);
    assert!(snapshot.read(0x3000, &mut []));
    assert!(!snapshot.read(0x3000, &mut [0]));
    let mut buf = [0u8; 2];
    assert!(snapshot.read(0x4000, &mut buf));
    assert_eq!(buf, [4, 5]);
}

/// The mapping that counts is the last that begins at or below the read.
#[test]
fn a_mapping_inside_another_does_not_hide_it() {
    let mut writer = Writer::create(metadata("inside"));
    let bytes: Vec<u8> = (0..16).collect();
    let mut blob = writer.add_range(range(0x1000, 16, flags::HEAP), Some(&bytes));
    blob.extend(writer.add_range(range(0x1008, 4, flags::HEAP), Some(&bytes[8..12])));
    let files = writer.finish();
    let dir = Dir { name: "inside".into(), manifest: files.manifest, index: files.index, blob };
    let snapshot = open(&dir, None);
    let mut buf = [0u8; 8];
    assert!(snapshot.read(0x1004, &mut buf));
    assert_eq!(buf, [4, 5, 6, 7, 8, 9, 10, 11]);
    let mut whole = [0u8; 16];
    assert!(snapshot.read(0x1000, &mut whole));
    assert_eq!(whole[..], bytes);
    assert!(!snapshot.read(0x1008, &mut buf));
}

/// Notes come back as they were written, blank lines and all.
#[test]
fn notes_come_back_line_by_line() {
    for notes in ["", "one", "one\ntwo", "one\n\n  two: three\n\tfour", "a\rb"] {
        let mut written = metadata("notes");
        written.notes = notes.into();
        let manifest = Writer::create(written).finish().manifest;
        let read = Manifest::parse(&manifest).expect("a manifest");
        assert_eq!(read.metadata.notes, notes);
    }
}

fn metadata(label: &str) -> Metadata {
    let mut metadata = Metadata::default();
    metadata.game_version = "1.1.2.4-52e959e-sw".into();
    metadata.build_id = "25096761".into();
    metadata.label = label.into();
    metadata.frozen = true;
    metadata.satisfies = vec!["run-finished".into()];
    metadata
}

/// One range, spanning several chunks, so a delta can change some and not
/// others.
fn body(fill: u8, mutate: &[(usize, u8)]) -> Vec<u8> {
    let mut bytes = vec![fill; (CHUNK * 3) as usize];
    for &(at, value) in mutate {
        bytes[at] = value;
    }
    bytes
}

const AT: u64 = 0x10_0000;

fn write(bytes: &[u8], base: Option<Snapshot>, label: &str) -> Dir {
    let mut writer = Writer::create(metadata(label));
    if let Some(base) = base {
        writer = writer.with_base(base);
    }
    let blob = writer.add_range(range(AT, bytes.len() as u64, flags::HEAP), Some(bytes));
    let files = writer.finish();
    Dir { name: label.into(), manifest: files.manifest, index: files.index, blob }
}

/// The point of the whole exercise: a step stores only what changed, and still
/// reads back as the complete address space.
#[test]
fn a_delta_stores_only_what_changed_and_reads_back_whole() {
    let base = write(&body(0xAA, &[]), None, "base");

    // One byte, in the middle chunk.
    let second = body(0xAA, &[(CHUNK as usize + 5, 0x42)]);
    let step = write(&second, Some(open(&base, None)), "step1");

    let step = open(&step, Some(open(&base, None)));
    assert_eq!(step.chain_length(), 2);
    assert_eq!(
        step.captured_bytes(),
        CHUNK,
        "only the one changed chunk should have been stored"
    );

    // Reads come out whole regardless of which capture holds them.
    let mut buf = vec![0u8; second.len()];
    assert!(step.read(AT, &mut buf));
    assert_eq!(buf, second);
}

/// A read crossing the boundary between a changed chunk and an inherited one has
/// to be stitched from both.
#[test]
fn a_read_spanning_stored_and_inherited_bytes_is_stitched() {
    let base = write(&body(0x11, &[]), None, "base");
    let second = body(0x11, &[(CHUNK as usize, 0x99)]);
    let step = write(&second, Some(open(&base, None)), "step1");

    let step = open(&step, Some(open(&base, None)));
    let mut buf = vec![0u8; 16];
    // Straddles the end of chunk 0 (inherited) and the start of chunk 1 (stored).
    assert!(step.read(AT + CHUNK - 8, &mut buf));
    assert_eq!(&buf[..8], &[0x11; 8]);
    assert_eq!(buf[8], 0x99);
    assert_eq!(&buf[9..], &[0x11; 7]);
}

/// Deltas stack, so a recorded sequence is one full capture and a tail of small
/// ones.
#[test]
fn deltas_chain_through_several_steps() {
    let base = write(&body(0x00, &[]), None, "base");
    let one = body(0x00, &[(0, 1)]);
    let step1 = write(&one, Some(open(&base, None)), "step1");
    let two = body(0x00, &[(0, 1), (CHUNK as usize * 2 + 3, 2)]);
    let step2 = write(&two, Some(open(&step1, Some(open(&base, None)))), "step2");

    let last = open(&step2, Some(open(&step1, Some(open(&base, None)))));
    assert_eq!(last.chain_length(), 3);
    assert_eq!(last.captured_bytes(), CHUNK, "step2 changed one chunk");

    let mut buf = vec![0u8; two.len()];
    assert!(last.read(AT, &mut buf));
    assert_eq!(buf, two, "the first step's change must survive the second");
}

/// A delta without its base is not a capture with holes, it is unreadable, and it
/// has to say so rather than serving stale bytes.
#[test]
fn a_delta_refuses_to_open_without_its_base() {
    let base = write(&body(0x7, &[]), None, "base");
    let step = write(&body(0x7, &[(1, 9)]), Some(open(&base, None)), "step1");

    let error = match Snapshot::open(&step.name, &step.manifest, &step.index, step.blob, None) {
        Err(error) => error,
        Ok(_) => panic!("opened a delta whose base is gone"),
    };
    assert!(matches!(&error, Refused::Baseless(name) if name == "base"));
    let text = error.text("/snapshots/step1", "no such directory");
    assert_eq!(
        text,
        "/snapshots/step1 stores differences against base, which could not be opened: no such directory. A delta is unreadable without its base."
    );
}

/// Writes a three-step scenario where one byte changes at each step, each a
/// delta against the one before, and opens every step.
fn record() -> Vec<Snapshot> {
    const HERE: u64 = 0x20_0000;
    let mut dirs: Vec<Dir> = Vec::new();
    for (index, (event, value)) in [("begin", 0u8), ("start", 1), ("split", 2)]
        .into_iter()
        .enumerate()
    {
        let mut metadata = Metadata::default();
        metadata.game_version = "1.1.2.4-52e959e-sw".into();
        metadata.label = format!("step{index:02}");
        metadata.process_name = "Unity Main Thre".into();
        metadata.pid = 7;
        metadata.frozen = true;
        metadata.satisfies = vec!["wonder-run".into()];
        metadata.scenario = Some("wonder-run".into());
        metadata.step = Some(Step { index: index as u32, event: event.into() });

        let mut writer = Writer::create(metadata);
        if index > 0 {
            writer = writer.with_base(chain(&dirs, index - 1));
        }
        let mut bytes = vec![0xEE; (CHUNK * 2) as usize];
        bytes[0] = value;
        let blob = writer.add_range(range(HERE, bytes.len() as u64, flags::HEAP), Some(&bytes));
        assert_eq!(writer.inherited(), if index > 0 { 1 } else { 0 });
        let files = writer.finish();
        dirs.push(Dir {
            name: format!("step{index:02}"),
            manifest: files.manifest,
            index: files.index,
            blob,
        });
    }
    (0..3).map(|index| chain(&dirs, index)).collect()
}

fn chain(dirs: &[Dir], index: usize) -> Snapshot {
    let base = if index > 0 { Some(chain(dirs, index - 1)) } else { None };
    open(&dirs[index], base)
}

fn scenario() -> Scenario {
    match Scenario::open(record()) {
        Ok(scenario) => scenario,
        Err(reason) => panic!("{reason}"),
    }
}

#[test]
fn serves_each_step_in_turn() {
    const HERE: u64 = 0x20_0000;
    let scenario = scenario();
    assert_eq!(scenario.len(), 3);
    assert!(!scenario.is_empty());
    assert_eq!(scenario.events(), ["begin", "start", "split"]);
    assert_eq!(scenario.game_version(), "1.1.2.4-52e959e-sw");

    let mut process = scenario.into_process();
    assert_eq!(process.pid, 7);
    assert_eq!(process.name, "Unity Main Thre");
    let mut byte = [0u8; 1];

    // The world does not move on its own: a tick that does not advance the
    // scenario must see exactly what the last one saw.
    assert!(process.memory.read(HERE, &mut byte));
    assert_eq!(byte[0], 0);
    assert!(process.memory.read(HERE, &mut byte));
    assert_eq!(byte[0], 0);

    assert!(advance_process(&mut process));
    assert_eq!(process.memory.event(), "start");
    assert_eq!(process.memory.position(), 1);
    assert_eq!(process.memory.directory(), "step01");
    assert!(process.memory.read(HERE, &mut byte));
    assert_eq!(byte[0], 1);

    assert!(advance_process(&mut process));
    assert!(process.memory.read(HERE, &mut byte));
    assert_eq!(byte[0], 2);

    assert!(!advance_process(&mut process), "the recording has ended");
    assert!(process.memory.read(HERE, &mut byte));
    assert_eq!(byte[0], 2, "past the end it holds the last step, not nothing");
}

/// Unchanged memory has to survive being inherited through the whole chain, or a
/// long recording would decay into holes.
#[test]
fn inherited_bytes_survive_every_step() {
    const HERE: u64 = 0x20_0000;
    let mut process = scenario().into_process();
    advance_process(&mut process);
    advance_process(&mut process);

    // The second chunk was never touched after step 0.
    let mut buf = [0u8; 32];
    assert!(process.memory.read(HERE + CHUNK, &mut buf));
    assert_eq!(buf, [0xEE; 32]);
}

#[test]
fn a_scenario_with_no_steps_is_refused() {
    match Scenario::open(Vec::new()) {
        Err(reason) => assert_eq!(reason, "a scenario with no steps"),
        Ok(_) => panic!("opened nothing"),
    }
}

#[test]
fn another_format_version_is_refused() {
    let dir = sample();
    let manifest = dir.manifest.replace("version 2\n", "version 3\n");
    match Snapshot::open("sample", &manifest, &dir.index, dir.blob, None) {
        Err(refused) => {
            assert!(matches!(refused, Refused::Version(3)));
            assert_eq!(
                refused.text("/snapshots/sample", ""),
                "/snapshots/sample is format version 3; this build reads 2. Recapture it rather than guessing at the difference."
            );
        }
        Ok(_) => panic!("opened another version"),
    }
}

/// The manifest is text that a person can read.
#[test]
fn the_manifest_says_it_in_words() {
    let manifest = sample().manifest;
    let lines: Vec<&str> = manifest.lines().collect();
    assert_eq!(
        lines,
        [
            "version 2",
            "game_version 1.1.2.4-52e959e-sw",
            "build_id 25096761",
            "label sample",
            "captured_at 0",
            "pid 4242",
            "process_name Unity Main Thre",
            "frozen yes",
            "satisfies run-finished",
            "satisfies main-menu",
            "process_path /games/Timberborn.exe",
            "note folktails",
            "note day 3",
            "module 70000000 300000 mono-2.0-bdwgc.dll",
            "range 1000 4 3 y",
            "range 9000 4 1 y",
            "range 5000 8 3 y",
            "range 7000 10 1 -",
        ]
    );
}

/// Keys that are not known are passed over, and numbers that are none are zero.
#[test]
fn a_manifest_is_read_leniently() {
    let text = "hello\nunknown thing\npid nonsense\nstep 3 split\nrange 10 20 1\r\nmodule 10 20 a b\n";
    let manifest = match Manifest::parse(text) {
        Ok(manifest) => manifest,
        Err(found) => panic!("{found}"),
    };
    assert_eq!(manifest.metadata.pid, 0);
    assert_eq!(manifest.metadata.step, Some(Step { index: 3, event: "split".into() }));
    assert_eq!(manifest.ranges.len(), 1);
    assert_eq!(manifest.ranges[0].size, 0x20);
    assert_eq!(manifest.readable, [false], "no mark is no bytes");
    assert_eq!(manifest.modules[0].name, "a b");
    assert!(matches!(Manifest::parse("version 1"), Err(1)));
}

#[test]
fn an_index_is_three_words_to_a_record() {
    let chunks = vec![
        Chunk { address: 0x1_0000, len: 0x20, offset: 0 },
        Chunk { address: 0xFFFF_FFFF_0000_0001, len: 1, offset: 0x20 },
    ];
    let bytes = encode_index(&chunks);
    assert_eq!(bytes.len(), 48);
    assert_eq!(&bytes[..4], &[0, 0, 1, 0]);
    assert_eq!(decode_index(&bytes), chunks);
    assert_eq!(decode_index(&bytes[..47]).len(), 1, "half a record is none");
}

fn capture(dir: &str, version: &str, satisfies: &[&str], frozen: bool, step: Option<(&str, u32)>) -> Capture {
    let mut metadata = Metadata::default();
    metadata.game_version = version.into();
    metadata.frozen = frozen;
    metadata.satisfies = satisfies.iter().map(|id| id.to_string()).collect();
    if let Some((scenario, index)) = step {
        metadata.scenario = Some(scenario.into());
        metadata.step = Some(Step { index, event: "split".into() });
    }
    Capture { dir: dir.into(), metadata }
}

fn dirs(shelf: &Shelf, found: &[usize]) -> Vec<String> {
    found.iter().map(|&index| shelf.capture(index).dir.clone()).collect()
}

#[test]
fn captures_are_found_by_state_in_order_of_name() {
    let shelf = Shelf::new(
        "/snapshots",
        vec![
            capture("c", "2", &["run-finished"], false, None),
            capture("a", "1", &["main-menu"], false, None),
            capture("b", "1", &["main-menu", "run-finished"], true, None),
        ],
        3,
    );
    match shelf.find_all("run-finished") {
        Ok(found) => assert_eq!(dirs(&shelf, &found), ["b", "c"]),
        Err(lack) => panic!("{}", lack.text(&shelf)),
    }
}

/// Newest game version last, number by number rather than letter by letter.
#[test]
fn captures_are_in_the_order_of_their_versions() {
    let shelf = Shelf::new(
        "/snapshots",
        vec![
            capture("1.10.0.0-x", "1.10.0.0-x", &["run-finished"], false, None),
            capture("1.9.0.0-b", "1.9.0.0-b", &["run-finished"], false, None),
            capture("1.9.0.0-a", "1.9.0.0-a", &["run-finished"], false, None),
            capture("z", "1.9", &["run-finished"], false, None),
        ],
        4,
    );
    match shelf.find_all("run-finished") {
        Ok(found) => assert_eq!(
            dirs(&shelf, &found),
            ["z", "1.9.0.0-a", "1.9.0.0-b", "1.10.0.0-x"]
        ),
        Err(lack) => panic!("{}", lack.text(&shelf)),
    }
}

#[test]
fn one_capture_per_version_preferring_a_frozen_one() {
    let shelf = Shelf::new(
        "/snapshots",
        vec![
            capture("a", "1", &["run-finished"], false, None),
            capture("b", "2", &["run-finished"], false, None),
            capture("c", "1", &["run-finished"], true, None),
            capture("d", "1", &["run-finished"], true, None),
        ],
        4,
    );
    match shelf.find_per_version("run-finished") {
        Ok(found) => assert_eq!(dirs(&shelf, &found), ["c", "b"]),
        Err(lack) => panic!("{}", lack.text(&shelf)),
    }
}

#[test]
fn scenarios_are_gathered_by_name_and_put_in_order() {
    let shelf = Shelf::new(
        "/snapshots",
        vec![
            capture("1", "1", &["wonder-run"], true, Some(("late", 1))),
            capture("2", "1", &["wonder-run"], true, Some(("early", 0))),
            capture("3", "1", &["wonder-run"], true, Some(("late", 0))),
            capture("4", "1", &["wonder-run"], true, None),
        ],
        4,
    );
    match shelf.find_scenarios("wonder-run") {
        Ok(found) => {
            let all: Vec<(String, Vec<String>)> = found
                .into_iter()
                .map(|(name, steps)| (name, dirs(&shelf, &steps)))
                .collect();
            assert_eq!(
                all,
                [
                    ("early".to_string(), vec!["2".to_string()]),
                    ("late".to_string(), vec!["3".to_string(), "1".to_string()]),
                ]
            );
        }
        Err(lack) => panic!("{}", lack.text(&shelf)),
    }
    match shelf.find_scenario("wonder-run") {
        Ok(found) => assert_eq!(dirs(&shelf, &found), ["2"]),
        Err(lack) => panic!("{}", lack.text(&shelf)),
    }
}

/// Replaying across a hole would show the splitter a jump that never happened.
#[test]
fn a_recording_with_a_gap_is_refused() {
    let shelf = Shelf::new(
        "/snapshots",
        vec![
            capture("a", "1", &["wonder-run"], true, Some(("run", 0))),
            capture("b", "1", &["wonder-run"], true, Some(("run", 2))),
        ],
        2,
    );
    match shelf.find_scenarios("wonder-run") {
        Err(lack) => {
            assert!(matches!(&lack, Lack::Gap { position: 1, .. }));
            assert_eq!(
                lack.text(&shelf),
                "the recording \"run\" is missing step 1: it jumps to 2 at /snapshots/b. Replaying across the gap would show the splitter a change that never happened, so this is refused rather than patched over."
            );
        }
        Ok(_) => panic!("spliced a gap"),
    }
}

#[test]
fn a_missing_capture_says_how_to_make_one() {
    let shelf = Shelf::new("/snapshots", vec![], 2);
    match shelf.find_all("run-finished") {
        Err(lack) => {
            let text = lack.text(&shelf);
            assert!(text.starts_with("No snapshot satisfies \"run-finished\" ("), "{text}");
            assert!(
                text.ends_with("\n\nLooked in /snapshots, which holds 2 capture(s)."),
                "{text}"
            );
        }
        Ok(_) => panic!("found something in nothing"),
    }
    match shelf.find_all("no-such\tstate") {
        Err(lack) => {
            let text = lack.text(&shelf);
            assert!(
                text.starts_with("no such requirement \"no-such\\tstate\". Known states:\n  "),
                "{text}"
            );
        }
        Ok(_) => panic!("found something in nothing"),
    }
}

#[test]
fn a_missing_recording_says_how_to_make_one() {
    let shelf = Shelf::new(
        "/snapshots",
        vec![capture("a", "1", &["wonder-run"], true, None)],
        1,
    );
    match shelf.find_scenario("wonder-run") {
        Err(lack) => {
            let text = lack.text(&shelf);
            assert!(text.starts_with("No recorded scenario satisfies \"wonder-run\" ("), "{text}");
            assert!(text.contains("tb-record --state wonder-run --notes"), "{text}");
        }
        Ok(_) => panic!("found a recording in a single capture"),
    }
}
