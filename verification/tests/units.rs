//! The smaller pieces, each on values of its own.
use timberborn_autosplitter::capture::{capturable, capture, read_range, report, READ_CHUNK};
use timberborn_autosplitter::freeze::{failure, state, wait, Wait, CHECKS};
use timberborn_autosplitter::install::version;
use timberborn_autosplitter::live::parse_mapping;
use timberborn_autosplitter::memory::{read_u64, FakeProcess, Memory, MemoryRange, SparseMemory};
use timberborn_autosplitter::record::{
    describe, find_game, forced, game_dir, is_probe_body, label, noise, parse_args, summarise,
    undecided, Next, Recorder, Wrong, MAX_STEPS,
};
use timberborn_autosplitter::requirement::get;
use timberborn_autosplitter::snapshot::manifest::Metadata;
use timberborn_autosplitter::snapshot::writer::Writer;
use timberborn_autosplitter::timer::TimerEvent;
use timberborn_autosplitter::world::World;

#[test]
fn an_odd_id_is_quoted_as_code_would() {
    let mut odd = get("main-menu").expect("a state");
    odd.id = "a\"b\\c\n";
    let text = odd.instructions();
    assert!(text.starts_with("No snapshot satisfies \"a\\\"b\\\\c\\n\" ("), "{text}");
    assert!(text.contains("--state a\"b\\c\n --notes"), "{text}");
}

#[test]
fn the_state_stands_behind_the_last_bracket() {
    assert_eq!(state("4242 (Unity Main Thre) T 1 2 3"), Some('T'));
    assert_eq!(state("4242 (a) b) c) S 1 2 3"), Some('S'));
    assert_eq!(state("4242 (a)"), None);
    assert_eq!(state("4242"), None);
}

#[test]
fn a_process_is_waited_for_until_it_stops() {
    assert_eq!(wait(Some("1 (a) T 0"), 1), Wait::Stopped);
    assert_eq!(wait(Some("1 (a) S 0"), 1), Wait::Again);
    assert_eq!(wait(Some("1 (a) S 0"), CHECKS), Wait::Stuck);
    assert_eq!(wait(None, 1), Wait::Vanished);
    assert_eq!(failure(Wait::Vanished, 7), "pid 7 disappeared while being stopped");
    assert_eq!(
        failure(Wait::Stuck, 7),
        "pid 7 did not report as stopped within a second; resume it with: kill -CONT 7"
    );
}

#[test]
fn the_version_stands_behind_the_games_name() {
    let mut blob = vec![0u8; 100];
    blob.extend_from_slice(b"9.9.9.9\0Mechanistry\0Timberborn\0ab\0junk\x01\x021.1.2.4-52e959e-sw\0");
    assert_eq!(version(&blob).as_deref(), Some("1.1.2.4-52e959e-sw"));
    assert_eq!(version(b"Timberborn\0aaaa\0bbbb\0cccc\0dddd\01.2.3\0"), None, "too far behind");
    assert_eq!(version(b"Timberborn\01.2\0"), None, "two numbers are no version");
    assert_eq!(version(b"Timberborn\01..2.3\0"), None);
    assert_eq!(version(b"Timberborn\01.2.3.\0"), None);
    assert_eq!(version(b"Timberborn\012.0.3\0").as_deref(), Some("12.0.3"));
    assert_eq!(version(b"Timberborn2\01.2.3\0"), None);
    assert_eq!(version(b""), None);
}

#[test]
fn only_ordinary_readable_memory_is_captured() {
    let mappings: Vec<_> = [
        "1000-2000 r--p 00000000 08:02 1 /game/a",
        "2000-3000 ---p 00000000 00:00 0",
        "3000-4000 rw-p 00000000 00:06 9 /dev/nvidia0",
        "4000-5000 rw-p 00000000 00:00 0",
    ]
    .iter()
    .filter_map(|line| parse_mapping(line))
    .collect();
    assert_eq!(capturable(&mappings), [0, 3]);
}

fn range(address: u64, size: u64) -> MemoryRange {
    MemoryRange { address, size, flags: 3 }
}

/// A piece that cannot be read costs that piece and nothing else.
#[test]
fn one_failing_page_does_not_discard_a_range() {
    let piece = READ_CHUNK as u64;
    let mut memory = SparseMemory::new();
    memory.put(0x10_0000, vec![1; 2 * READ_CHUNK]);
    memory.put(0x10_0000 + 3 * piece, vec![2; 0x1000]);
    let parts = read_range(&memory, range(0x10_0000, 3 * piece + 0x1000));
    assert_eq!(parts.len(), 3);
    assert!(parts[0].range == range(0x10_0000, 2 * piece));
    assert_eq!(parts[0].bytes, Some(vec![1; 2 * READ_CHUNK]));
    assert!(parts[1].range == range(0x10_0000 + 2 * piece, piece));
    assert_eq!(parts[1].bytes, None);
    assert!(parts[2].range == range(0x10_0000 + 3 * piece, 0x1000));
    assert_eq!(parts[2].bytes, Some(vec![2; 0x1000]));
    let empty = read_range(&memory, range(0x10_0000, 0));
    assert_eq!(empty.len(), 1);
    assert_eq!(empty[0].bytes, Some(vec![]));
}

#[test]
fn a_range_is_read_into_a_capture() {
    let mut memory = SparseMemory::new();
    memory.put(0x4000, vec![7; 0x1000]);
    let parts = read_range(&memory, range(0x4000, 0x1000));
    assert_eq!(parts.len(), 1);
    assert_eq!(parts[0].bytes, Some(vec![7; 0x1000]));

    let mapping = parse_mapping("4000-5000 rw-p 00000000 00:00 0").unwrap();
    let gone = parse_mapping("8000-9000 rw-p 00000000 00:00 0").unwrap();
    let mut writer = Writer::create(Metadata::default());
    assert_eq!(capture(&mut writer, &memory, &mapping).len(), 0x1000);
    assert_eq!(capture(&mut writer, &memory, &gone).len(), 0);
    let report = report(&writer, 2);
    assert_eq!(report.ranges, 2);
    assert_eq!(report.bytes_written, 0x1000);
    assert_eq!(report.skipped, 1);
    assert_eq!(report.inherited, 0);
}

/// An empty put leaves what is there alone, and a read that fails leaves the
/// buffer alone.
#[test]
fn a_put_never_overwrites() {
    let mut memory = SparseMemory::new();
    memory.put(0x1000, vec![1, 2, 3, 4]);
    memory.put(0x1000, vec![]);
    memory.put(0x2000, vec![]);
    memory.put(0x2000, vec![5, 6]);
    let mut bytes = [0; 4];
    assert!(memory.read(0x1000, &mut bytes));
    assert_eq!(bytes, [1, 2, 3, 4]);
    assert!(!memory.read(0x1001, &mut bytes));
    assert_eq!(bytes, [1, 2, 3, 4]);
    let mut pair = [0; 2];
    assert!(memory.read(0x2000, &mut pair));
    assert_eq!(pair, [5, 6]);
}

/// What was poked reads back, and everything beside it is as it was.
#[test]
fn poking_changes_what_it_covers() {
    let mut memory = SparseMemory::new();
    memory.put_u64(0x1000, 0x1111_1111_1111_1111);
    memory.put_u64(0x1008, 0x2222_2222_2222_2222);
    memory.poke(0x1008, &[0; 4]);
    assert_eq!(read_u64(&memory, 0x1000), Some(0x1111_1111_1111_1111));
    assert_eq!(read_u64(&memory, 0x1008), Some(0x2222_2222_0000_0000));
    let mut buf = [0u8; 16];
    assert!(!memory.read(0x1000, &mut buf), "a read never spans two blocks");
}

#[test]
fn routine_progress_is_noise() {
    for line in [
        "[scan] SceneLoader starting (full sweep -- x).",
        "[entities] opening walk starting over 5 entities.",
        "[collections] known layout",
        "--- probe: Mono ---",
        "  ok  Timberborn.TimeSystem/DayNightCycle: vtable 0x1",
        "  MISSING  x",
    ] {
        assert!(noise(line), "{line}");
    }
    assert!(!noise("Split: Forester finished."));
    assert!(is_probe_body("ok then"));
    assert!(!is_probe_body("okay"));
}

#[test]
fn a_line_names_a_step_by_its_first_words() {
    assert_eq!(summarise("  Split: Tapper's Shack finished, at last. "), "split-tapper-s-shack-finished");
    assert_eq!(summarise("Run end"), "run-end");
    assert_eq!(summarise("..."), "");
}

#[test]
fn what_the_splitter_did_names_a_moment() {
    assert_eq!(describe(&TimerEvent::Start), Some("start"));
    assert_eq!(describe(&TimerEvent::Split), Some("split"));
    assert_eq!(describe(&TimerEvent::Reset), Some("reset"));
    assert_eq!(describe(&TimerEvent::UndoSplit), Some("undo-split"));
    assert_eq!(describe(&TimerEvent::SkipSplit), Some("skip-split"));
    assert_eq!(describe(&TimerEvent::PauseGameTime), None);
    assert_eq!(
        describe(&TimerEvent::SetVariable { key: "a".into(), value: "b".into() }),
        None
    );
}

fn recorder(state: &str) -> Recorder {
    Recorder {
        requirement: get(state).expect("a known state"),
        pid: 7,
        process_name: "Unity Main Thre".into(),
        version: "1.1.2.4".into(),
        scenario: "my-run".into(),
        notes: "folktails".into(),
        step: 0,
        seen_events: 0,
        seen_log: 0,
    }
}

#[test]
fn a_tick_is_a_moment_when_something_was_done_or_said() {
    let mut recorder = recorder("wonder-run");
    let mut log = vec!["[scan] x".to_string()];
    let mut events = vec![TimerEvent::SetVariable { key: "a".into(), value: "b".into() }];
    assert!(matches!(recorder.after_tick(&log, &events), Next::Nothing));

    log.push("[scan] y".into());
    log.push("Watching scene loads at 0x1.".into());
    match recorder.after_tick(&log, &events) {
        Next::Take { reason, ends } => {
            assert_eq!(reason, "watching-scene-loads-at-0x1");
            assert!(!ends);
        }
        _ => panic!("said something"),
    }
    assert!(matches!(recorder.after_tick(&log, &events), Next::Nothing), "already seen");

    log.push("Split: Forester finished.".into());
    events.push(TimerEvent::Split);
    match recorder.after_tick(&log, &events) {
        Next::Take { reason, .. } => assert_eq!(reason, "split", "what it did goes first"),
        _ => panic!("did something"),
    }

    recorder.step = MAX_STEPS;
    log.push("Something else.".into());
    assert!(matches!(recorder.after_tick(&log, &events), Next::Full));
}

/// The first step is also a capture of where the recording starts, and the step
/// at which the run ends of where it gets to.
#[test]
fn steps_are_tagged_with_what_they_are_of() {
    let mut recorder = recorder("wonder-run");
    let phrase = recorder.requirement.ends_when.expect("a run that ends");
    let begins = recorder.requirement.begins_at.expect("a run that begins");
    let reached = recorder.requirement.ends_at.expect("a run that ends");

    let first = recorder.metadata("begin", false, "100");
    assert_eq!(first.satisfies, ["wonder-run", begins]);
    assert_eq!(first.label, "step00");
    assert_eq!(first.scenario.as_deref(), Some("my-run"));
    assert_eq!(first.step.as_ref().map(|step| step.index), Some(0));
    assert_eq!(first.captured_at, "100");
    assert!(first.frozen);
    recorder.taken();

    let log = vec![format!("and then: {phrase}")];
    match recorder.after_tick(&log, &vec![TimerEvent::Split]) {
        Next::Take { reason, ends } => {
            assert!(ends);
            let last = recorder.metadata(&reason, ends, "200");
            assert_eq!(last.satisfies, ["wonder-run", reached]);
            assert_eq!(last.label, "step01");
        }
        _ => panic!("did something"),
    }
    assert_eq!(recorder.recording(), "1.1.2.4-my-run");
    assert_eq!(label(12), "step12");
}

fn args(list: &[&str]) -> Vec<String> {
    list.iter().map(|arg| arg.to_string()).collect()
}

#[test]
fn arguments_are_read_in_any_order() {
    let parsed = match parse_args(&args(&[
        "--notes", "folktails", "--pid", "42", "--label", "mine", "--state", "wonder-run",
    ])) {
        Ok(parsed) => parsed,
        Err(wrong) => panic!("{}", wrong.text()),
    };
    assert_eq!(parsed.state, "wonder-run");
    assert_eq!(parsed.label.as_deref(), Some("mine"));
    assert_eq!(parsed.notes, "folktails");
    assert_eq!(parsed.pid, Some(42));
}

fn complaint(list: &[&str]) -> String {
    match parse_args(&args(list)) {
        Ok(_) => panic!("accepted {list:?}"),
        Err(wrong) => wrong.text(),
    }
}

#[test]
fn wrong_arguments_are_complained_of() {
    assert_eq!(complaint(&["--state"]), "--state needs a value");
    assert_eq!(complaint(&["--label"]), "--label needs a value");
    assert_eq!(complaint(&["--notes"]), "--notes needs a value");
    assert_eq!(complaint(&["--pid"]), "--pid needs a value");
    assert_eq!(complaint(&["--pid", "many"]), "--pid must be a number");
    assert_eq!(complaint(&["--pid", "4294967296"]), "--pid must be a number");
    assert_eq!(complaint(&["now"]), "unknown argument now");
    assert!(matches!(parse_args(&args(&["-h"])), Err(Wrong::Help)));
    assert!(complaint(&[]).starts_with("--state is required: it says what scenario is being recorded"));
    assert!(complaint(&["--state", "x"]).starts_with("no such state \"x\". Known states:\n  "));
}

#[test]
fn the_game_is_the_one_process_with_its_files_mapped() {
    assert_eq!(find_game(&vec![(1, false), (2, true), (2, true)]), Ok(2));
    assert_eq!(find_game(&vec![(1, false)]), Err(vec![]));
    assert_eq!(find_game(&vec![(1, true), (2, true)]), Err(vec![1, 2]));
    assert_eq!(
        undecided(&vec![]),
        "no Timberborn process found. Start the game first, or pass --pid."
    );
    assert_eq!(undecided(&vec![1, 2]), "several candidates ([1, 2]); pass --pid to choose");
}

#[test]
fn the_games_directory_is_in_front_of_its_data() {
    let mappings: Vec<_> = [
        "1000-2000 r--p 00000000 08:02 1 /usr/lib/libc.so.6",
        "2000-3000 r--p 00000000 08:02 1 /games/steam apps/Timberborn/Timberborn_Data/level0",
    ]
    .iter()
    .filter_map(|line| parse_mapping(line))
    .collect();
    assert_eq!(game_dir(&mappings).as_deref(), Some("/games/steam apps/Timberborn"));
    assert_eq!(game_dir(&mappings[..1]), None);
}

/// A scenario whose triggers ship off is recorded with them on.
#[test]
fn a_scenario_forces_its_settings() {
    let world: World<SparseMemory> = World::new().with_process(
        FakeProcess::new(1, "a").with_memory(SparseMemory::new()),
    );
    let mut forcing = 0;
    for index in 0..timberborn_autosplitter::requirement::CATALOGUE {
        let requirement = timberborn_autosplitter::requirement::requirement(index);
        let world: World<SparseMemory> = forced(World::new(), &requirement);
        for (key, value) in &requirement.settings {
            assert_eq!(world.setting(key), Some(*value));
            forcing += 1;
        }
    }
    assert!(forcing > 0);
    assert_eq!(world.setting("smelter"), None);
}
