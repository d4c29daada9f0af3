//! The parts the splitter is made of, one at a time.
use timberborn_autosplitter::clock::{
    day_length_text, odd_day_text, starts_from_text, Clock, ClockFields, GameTime, Lengths, Push,
    SubDay, Telling, TickProgress, Within, NEW_GAME_DAY,
};
use timberborn_autosplitter::floats::{
    floats_equal, sum_is_positive, sum_never_positive, sure_not_positive,
};
use timberborn_autosplitter::memory::{flags, read_u64, Memory, MemoryRange, SparseMemory};
use timberborn_autosplitter::note::{activation_text, countdown_text};
use timberborn_autosplitter::order::sorted_unique;
use timberborn_autosplitter::requirement;
use timberborn_autosplitter::scan::{Scan, Validator};
use timberborn_autosplitter::settings;
use timberborn_autosplitter::status;
use timberborn_autosplitter::table::{
    mapped, region_containing, writable_ranges, Progress, ReferenceTable,
};
use timberborn_autosplitter::text;
use timberborn_autosplitter::timer::{Timer, TimerEvent, TimerState};

const FLOATS: &[f32] = &[
    0.0,
    -0.0,
    1.0,
    -1.0,
    0.03125,
    16.0,
    8.0,
    -16.0,
    f32::MIN_POSITIVE,
    -f32::MIN_POSITIVE,
    f32::MAX,
    f32::MIN,
    f32::INFINITY,
    f32::NEG_INFINITY,
    f32::NAN,
];

/// Comparing bits is comparing the floats.
#[test]
fn bits_compare_as_the_floats_do() {
    for &a in FLOATS {
        assert_eq!(sure_not_positive(a.to_bits()), a <= 0.0, "{a}");
        for &b in FLOATS {
            let (x, y) = (a.to_bits(), b.to_bits());
            assert_eq!(floats_equal(x, y), a == b, "{a} and {b}");
            assert_eq!(sum_is_positive(x, y), a + b > 0.0, "{a} and {b}");
            assert_eq!(sum_never_positive(x, y), a + b <= 0.0, "{a} and {b}");
        }
    }
}

#[test]
fn a_new_game_begins_one_sixth_into_its_first_day() {
    assert_eq!(f64::from_bits(NEW_GAME_DAY), 1.0 + 1.0 / 6.0);
}

const DAY: u64 = 0x1000;

fn fields() -> ClockFields {
    ClockFields {
        day_number: 0x10,
        sub_day: Some(SubDay { ticks_today: 0x18, hours_per_tick: 0x20, daytime: 0x28, nighttime: 0x30 }),
    }
}

fn clock_memory(hours_per_tick: f32) -> SparseMemory {
    let mut memory = SparseMemory::new();
    memory.put(DAY, vec![0; 0x40]);
    memory.poke(DAY + 0x10, &5i32.to_le_bytes());
    memory.poke(DAY + 0x18, &384i32.to_le_bytes());
    memory.poke(DAY + 0x20, &hours_per_tick.to_bits().to_le_bytes());
    memory.poke(DAY + 0x28, &16f32.to_bits().to_le_bytes());
    memory.poke(DAY + 0x30, &8f32.to_bits().to_le_bytes());
    memory.put(0x2000, 0.25f32.to_bits().to_le_bytes().to_vec());
    memory
}

#[test]
fn the_clock_is_read_in_one_pass() {
    let progress = Some(TickProgress { instance: 0x1ff0, offset: 0x10 });
    let mut clock = Clock::new(fields(), DAY, progress);
    let lengths = Lengths {
        hours_per_tick: 0.03125f32.to_bits(),
        daytime: 16f32.to_bits(),
        nighttime: 8f32.to_bits(),
    };
    let memory = clock_memory(0.03125);
    let reading = clock.read(&memory).expect("a reading");
    assert_eq!(reading.day_number, 5);
    assert_eq!(
        reading.within,
        Some(Within { ticks: 384, progress: 0.25f32.to_bits(), lengths })
    );
    // The lengths are kept once they were usable, whatever is read later.
    assert_eq!(clock.ticks_per_day(&clock_memory(0.0)), Some(lengths));
    assert!(clock.fields.has_sub_day());
}

#[test]
fn a_clock_whose_lengths_read_zero_has_no_place_in_the_day() {
    let mut clock = Clock::new(fields(), DAY, None);
    let reading = clock.read(&clock_memory(0.0)).expect("a reading");
    assert_eq!(reading.day_number, 5);
    assert_eq!(reading.within, None);
    assert_eq!(clock.lengths, None);
    let mut whole = Clock::new(ClockFields { day_number: 0x10, sub_day: None }, DAY, None);
    assert_eq!(whole.read(&clock_memory(0.03125)).map(|r| (r.day_number, r.within)), Some((5, None)));
    let mut gone = Clock::new(fields(), 0x9000, None);
    assert!(gone.read(&clock_memory(0.03125)).is_none());
}

#[test]
fn game_time_is_given_from_the_run_start_on() {
    let at = |day: f64| Some(day.to_bits());
    let mut time = GameTime::default();
    assert_eq!(time.update(false, at(2.0)), Push::Nothing);
    assert_eq!(time.update(true, at(2.0)), Push::NoBaseline);
    assert_eq!(time.update(true, at(2.5)), Push::Nothing);
    time.begin(at(3.0));
    assert_eq!(
        time.update(true, at(3.5)),
        Push::Give { pause: true, baseline: 3f64.to_bits(), day: 3.5f64.to_bits() }
    );
    assert_eq!(time.update(true, None), Push::Lost);
    assert_eq!(time.update(true, None), Push::Nothing);
    assert_eq!(
        time.update(true, at(4.0)),
        Push::Give { pause: false, baseline: 3f64.to_bits(), day: 4f64.to_bits() }
    );
    assert_eq!(time.update(true, None), Push::Lost);
    time.begin(None);
    assert_eq!(time.update(true, at(5.0)), Push::NoBaseline);
    time.begin_at_new_game();
    assert_eq!(
        time.update(true, at(2.0)),
        Push::Give { pause: false, baseline: NEW_GAME_DAY, day: 2f64.to_bits() }
    );
}

fn told(telling: Telling) -> (String, bool) {
    (telling.text().expect("a line without a number"), telling.is_warning())
}

#[test]
fn the_host_is_told_what_a_run_is_timed_from() {
    let mut time = GameTime::default();
    assert_eq!(
        told(time.begin_at_new_game()),
        (
            "Run started before the clock was located. Game time starts from day 1.1667, where a \
             new game begins."
                .to_owned(),
            false
        )
    );
    let bits = 1.25f64.to_bits();
    assert_eq!(time.begin(Some(bits)), Telling::StartsFrom { day: bits });
    assert_eq!(Telling::StartsFrom { day: bits }.text(), None);
    assert_eq!(starts_from_text("1.1680", None), "Game time starts from day 1.1680.");
    assert_eq!(
        starts_from_text("1.2500", Some("64")),
        "Game time starts from day 1.2500, which is 64 ticks from where a new game begins. \
         Expected 1.1667."
    );
    assert_eq!(
        told(time.begin(None)),
        ("Run started, but the clock could not be read. No game time.".to_owned(), true)
    );
    assert_eq!(format!("{:.4}", f64::from_bits(NEW_GAME_DAY)), "1.1667");
}

#[test]
fn the_host_is_told_why_there_is_no_game_time() {
    assert_eq!(
        Push::NoBaseline.telling().map(told),
        Some((
            "The timer is running but no run start was seen, so there is no baseline and game \
             time is not being set."
                .to_owned(),
            false
        ))
    );
    assert_eq!(
        Push::Lost.telling().map(told),
        Some(("The clock was lost mid-run. Game time is frozen.".to_owned(), true))
    );
    assert_eq!(Push::Nothing.telling(), None);
    assert_eq!(Push::Give { pause: true, baseline: 0, day: 0 }.telling(), None);
}

#[test]
fn the_host_is_told_of_the_clock() {
    let progress = TickProgress { instance: 0xabc0, offset: 0x10 };
    assert_eq!(
        told(progress.telling()),
        (
            "Found TickProgressService at 0xabc0. Game time will move between ticks.".to_owned(),
            false
        )
    );
    assert_eq!(
        day_length_text("768", "16", "8", "0.03125"),
        "Clock: 768 ticks a day (16+8 in-game hours at 0.03125 an hour a tick)."
    );
    assert_eq!(
        odd_day_text("700"),
        "This game's day is 700 ticks, not 768. Game time will not be comparable with other runs."
    );
}

#[test]
fn numbers_held_by_their_bits_have_their_place_in_a_line() {
    assert_eq!(
        activation_text("63.5"),
        "Wonder activated (not the run end). Completion due on day 63.5."
    );
    assert_eq!(
        countdown_text("12", "230.4", "16", "8", "460.8"),
        "Countdown: 12 in-game hours = 230.4s real time at 1x (day is 16+8h in 460.8s). This is \
         how far activation precedes the run end."
    );
}

const NEEDLE: u64 = 0x5555_0000;

fn heap() -> Vec<MemoryRange> {
    vec![
        MemoryRange { address: 0x10_0000, size: 0x2000, flags: flags::READ | flags::WRITE },
        MemoryRange { address: 0x20_0000, size: 0x1000, flags: flags::READ },
    ]
}

fn finish<M: Memory>(scan: &mut Scan, memory: &M) {
    for _ in 0..100 {
        if scan.step(memory, 4096) {
            return;
        }
    }
    panic!("the scan does not end");
}

/// Everything found is there, and a scan that read everything missed nothing.
#[test]
fn a_scan_finds_each_instance_and_no_other() {
    let mut memory = SparseMemory::new();
    memory.put(0x10_0000, vec![0; 0x2000]);
    memory.put(0x20_0000, vec![0; 0x1000]);
    memory.poke(0x10_0010, &NEEDLE.to_le_bytes());
    memory.poke(0x10_1ff8, &NEEDLE.to_le_bytes());
    memory.poke(0x10_0804, &NEEDLE.to_le_bytes());
    memory.poke(0x20_0000, &NEEDLE.to_le_bytes());
    let mut scan = Scan::new(&heap(), NEEDLE);
    finish(&mut scan, &memory);
    assert_eq!(scan.found, [0x10_0010, 0x10_1ff8]);
    assert!(scan.is_conclusive());
    assert_eq!(scan.stats.ranges_scanned, 1);
    assert_eq!(scan.stats.ranges_skipped, 1);
    assert_eq!(scan.stats.bytes_scanned, 0x2000);

    let mut absent = Scan::new(&heap(), NEEDLE + 8);
    finish(&mut absent, &memory);
    assert!(absent.found.is_empty());
    assert!(absent.is_conclusive(), "nothing was there, and that is now known");

    let mut first = Scan::new(&heap(), NEEDLE).limit(1);
    finish(&mut first, &memory);
    assert_eq!(first.found, [0x10_0010]);
}

#[test]
fn a_scan_that_could_not_read_everything_proves_nothing() {
    let mut memory = SparseMemory::new();
    memory.put(0x10_0000, vec![0; 0x1000]);
    memory.poke(0x10_0010, &NEEDLE.to_le_bytes());
    let mut scan = Scan::new(&heap(), NEEDLE);
    finish(&mut scan, &memory);
    assert_eq!(scan.found, [0x10_0010]);
    assert!(!scan.is_conclusive());
    assert_eq!(scan.stats.bytes_unreadable, 0x1000);
}

/// What a scan holds is in the order it went by, and each address once.
#[test]
fn a_scan_goes_through_its_ranges_in_order() {
    let writable = flags::READ | flags::WRITE;
    let ranges = [
        MemoryRange { address: 0x30_0000, size: 0x4000, flags: writable },
        MemoryRange { address: 0x10_0000, size: 0x1000, flags: writable },
    ];
    let mut memory = SparseMemory::new();
    memory.put(0x30_0000, vec![0; 0x2000]);
    memory.put(0x30_3000, vec![0; 0x1000]);
    memory.put(0x10_0000, vec![0; 0x1000]);
    memory.poke(0x10_0f00, &0x7777_0000u64.to_le_bytes());
    let leading = [0x30_0100u64, 0x30_1ff0, 0x10_0008];
    let astray = [0x30_0200u64, 0x30_3000, 0x10_0800];
    for object in leading {
        memory.poke(object, &NEEDLE.to_le_bytes());
        memory.poke(object + 8, &0x10_0f00u64.to_le_bytes());
    }
    for object in astray {
        memory.poke(object, &NEEDLE.to_le_bytes());
    }
    let validator = Validator { field_offset: 8, expected_vtable: 0x7777_0000 };
    let mut scan = Scan::new(&ranges, NEEDLE).validating(validator);
    finish(&mut scan, &memory);
    assert_eq!(scan.found, leading);
    assert_eq!(scan.rejected, astray);
    assert_eq!(scan.stats.bytes_unreadable, 0x1000);

    let validator = Validator { field_offset: 8, expected_vtable: 0x7777_0000 };
    let mut two = Scan::new(&ranges, NEEDLE).validating(validator).limit(2);
    finish(&mut two, &memory);
    assert_eq!(two.found, leading[..2]);
    assert_eq!(two.rejected, astray[..1]);
}

#[test]
fn a_search_that_is_to_accept_nothing_is_over_at_once() {
    let mut memory = SparseMemory::new();
    memory.put(0x10_0000, vec![0; 0x2000]);
    memory.poke(0x10_0010, &NEEDLE.to_le_bytes());
    let mut scan = Scan::new(&heap(), NEEDLE).limit(0);
    assert!(scan.step(&memory, 4096));
    assert!(scan.found.is_empty());
    assert_eq!(scan.stats.bytes_scanned, 0);

    memory.poke(0x10_0010, &0x10_0100u64.to_le_bytes());
    memory.poke(0x10_0100, &NEEDLE.to_le_bytes());
    memory.poke(0x10_0108, &0x10_0200u64.to_le_bytes());
    memory.poke(0x10_0200, &0x7777_0000u64.to_le_bytes());
    for (limit, found) in [(0usize, 0usize), (1, 1)] {
        let validator = Validator { field_offset: 8, expected_vtable: 0x7777_0000 };
        let mut table = ReferenceTable { base: 0x10_0000, seen: 0x2000, misses: 0 };
        let mut search = table
            .instances(&heap(), NEEDLE, validator, limit, &mut Vec::new())
            .expect("the table is mapped");
        while matches!(search.step(&memory, 0x10_0000), Progress::Pending) {}
        assert_eq!(search.instances.len(), found, "limited to {limit}");
    }
}

#[test]
fn a_candidate_has_to_lead_where_its_field_should() {
    let mut memory = SparseMemory::new();
    memory.put(0x10_0000, vec![0; 0x2000]);
    for object in [0x10_0100u64, 0x10_0200] {
        memory.poke(object, &NEEDLE.to_le_bytes());
    }
    memory.poke(0x10_0210, &0x10_0300u64.to_le_bytes());
    memory.poke(0x10_0300, &0x7777_0000u64.to_le_bytes());
    let validator = Validator { field_offset: 0x10, expected_vtable: 0x7777_0000 };
    assert!(validator.accepts(&memory, 0x10_0200));
    assert!(!validator.accepts(&memory, 0x10_0100));
    let mut scan = Scan::new(&heap(), NEEDLE).validating(validator).also_finding(0x7777_0000);
    finish(&mut scan, &memory);
    assert_eq!(scan.found, [0x10_0200]);
    assert_eq!(scan.rejected, [0x10_0100]);
    assert_eq!(scan.anchor_ranges, [(0x10_0000, 0x2000)]);
}

#[test]
fn only_starts_and_resets_move_the_timer() {
    let mut timer = Timer::default();
    timer.record(TimerEvent::Split);
    assert_eq!(timer.state, TimerState::NotRunning);
    timer.record(TimerEvent::Start);
    timer.record(TimerEvent::PauseGameTime);
    timer.record(TimerEvent::SetGameTime { secs: 60, nanos: 5 });
    timer.record(status::event("hello"));
    timer.record(TimerEvent::Split);
    timer.record(TimerEvent::UndoSplit);
    timer.record(TimerEvent::SkipSplit);
    assert_eq!(timer.state, TimerState::Running);
    assert_eq!(timer.splits(), 2);
    assert_eq!(timer.game_time_pauses(), 1);
    assert_eq!(
        timer.run_control(),
        [
            &TimerEvent::Split,
            &TimerEvent::Start,
            &TimerEvent::Split,
            &TimerEvent::UndoSplit,
            &TimerEvent::SkipSplit,
        ]
    );
    timer.record(TimerEvent::Reset);
    assert_eq!(timer.state, TimerState::NotRunning);
    assert_eq!(timer.events.len(), 9);
    let numbers: Vec<u32> = [
        TimerState::NotRunning,
        TimerState::Running,
        TimerState::Paused,
        TimerState::Ended,
    ]
    .into_iter()
    .map(TimerState::as_u32)
    .collect();
    assert_eq!(numbers, [0, 1, 2, 3]);
}

#[test]
fn a_status_is_a_variable_of_its_own() {
    assert_eq!(
        status::event("lost"),
        TimerEvent::SetVariable {
            key: "Timberborn Autosplitter".to_string(),
            value: "lost".to_string(),
        }
    );
}

#[test]
fn numbers_are_written_and_read_back() {
    for n in [0u64, 7, 10, 255, 4096, u64::MAX] {
        let mut decimal = String::new();
        text::push_decimal(&mut decimal, n);
        assert_eq!(decimal, n.to_string());
        assert_eq!(text::parse_number(&text::chars_of(&decimal), 10), Some(n));
        let mut hex = String::new();
        text::push_digits(&mut hex, n, 16);
        assert_eq!(hex, format!("{n:x}"));
        assert_eq!(text::parse_number(&text::chars_of(&hex), 16), Some(n));
        let mut capital = String::new();
        text::push_capital_digits(&mut capital, n);
        assert_eq!(capital, format!("{n:X}"));
        let mut prefixed = String::new();
        text::push_hex(&mut prefixed, n);
        assert!(prefixed.starts_with("0x"), "{prefixed}");
    }
    let mut signed = String::new();
    text::push_signed(&mut signed, i32::MIN);
    assert_eq!(signed, "-2147483648");
    for wrong in ["", "-1", "12x", "18446744073709551616", " 1"] {
        assert_eq!(text::parse_number(&text::chars_of(wrong), 10), None, "{wrong}");
    }
}

#[test]
fn texts_are_compared_and_cut() {
    assert!(text::same("abc", "abc") && !text::same("abc", "abd") && !text::same("ab", "abc"));
    for (a, b) in [("", "a"), ("a", "b"), ("ab", "b"), ("a", "aa"), ("Z", "a"), ("x", "x")] {
        assert_eq!(text::comes_before(a, b), a < b, "{a} {b}");
        assert_eq!(text::comes_before(b, a), b < a, "{b} {a}");
    }
    assert!(text::contains_text("Timberborn.exe", "born"));
    assert!(!text::contains_text("Timberborn.exe", "Born"));
    assert!(text::starts_with("abc", "") && text::starts_with("abc", "ab"));
    assert!(!text::starts_with("abc", "b"));
    let lines: Vec<String> = text::lines(&text::chars_of("one\ntwo\r\n\nlast"))
        .iter()
        .map(|line| line.iter().collect())
        .collect();
    assert_eq!(lines, "one\ntwo\r\n\nlast".lines().collect::<Vec<&str>>());
    assert_eq!(text::utf16_units("aé𝄞"), "aé𝄞".encode_utf16().collect::<Vec<u16>>());
}

#[test]
fn blocks_are_placed_and_read_back() {
    let mut memory = SparseMemory::new();
    memory.put_u64(0x1000, 1).put_u64(0x1008, 2);
    memory.put(0x1010, vec![3; 8]);
    assert_eq!(read_u64(&memory, 0x1000), Some(1));
    assert_eq!(read_u64(&memory, 0x1008), Some(2));
    assert_eq!(read_u64(&memory, 0x1004), None, "a read does not span blocks");
    assert_eq!(read_u64(&memory, 0x1018), None);
    memory.put_u64(0x1008, 9);
    assert_eq!(read_u64(&memory, 0x1008), Some(9));
    assert_eq!(read_u64(&memory, 0x1000), Some(1));
}

#[test]
fn ranges_are_sorted_and_looked_up() {
    let ranges = vec![
        MemoryRange { address: 0x3000, size: 0x1000, flags: flags::READ | flags::WRITE },
        MemoryRange { address: 0x1000, size: 0x1000, flags: flags::READ | flags::WRITE },
        MemoryRange { address: 0x2000, size: 0x1000, flags: flags::READ },
    ];
    let sorted = writable_ranges(&ranges);
    assert_eq!(sorted, [(0x1000, 0x1000), (0x3000, 0x1000)]);
    assert!(mapped(&sorted, 0x1fff) && mapped(&sorted, 0x3000));
    assert!(!mapped(&sorted, 0x2000) && !mapped(&sorted, 0xfff) && !mapped(&sorted, 0x4000));
    assert_eq!(region_containing(&ranges, 0x2010), Some((0x2000, 0x1000)));
    assert_eq!(region_containing(&ranges, 0x4000), None);
    assert_eq!(sorted_unique(&[5, 1, 5, 3]), [1, 3, 5]);
}

#[test]
fn the_wonders_splits_ship_on_and_the_bots_off() {
    let on: Vec<&str> = (0..settings::DECLARED)
        .map(settings::declared)
        .filter(|(_, on)| *on)
        .map(|(key, _)| key)
        .collect();
    assert_eq!(
        on,
        [
            "start",
            "forester",
            "gear_workshop",
            "tappers_shack",
            "advanced_science",
            "smelter_woodworkshop",
            "unlock_wonder",
            "congratulations_screen",
        ]
    );
}

#[test]
fn every_state_can_be_asked_for() {
    for index in 0..requirement::CATALOGUE {
        let wanted = requirement::requirement(index);
        let found = requirement::get(wanted.id).expect("it is listed");
        assert_eq!(found.summary, wanted.summary);
        assert!(requirement::listing().contains(wanted.id));
        let instructions = wanted.instructions();
        for step in &wanted.reproduce {
            assert!(!step.is_empty());
        }
        assert!(instructions.contains(wanted.summary), "{instructions}");
    }
    assert!(requirement::get("main menu").is_none());
}
