//! The world the splitter runs in, asked as the runtime is asked.
use timberborn_autosplitter::memory::{
    flags, EmptyMemory, FakeProcess, MemoryRange, ModuleInfo, SparseMemory,
};
use timberborn_autosplitter::timer::TimerEvent;
use timberborn_autosplitter::world::{fill, World};

fn process() -> FakeProcess<SparseMemory> {
    let mut memory = SparseMemory::new();
    memory.put(0x1000, vec![1, 2, 3, 4, 5, 6, 7, 8]);
    let mut process = FakeProcess::new(77, "Timberborn.exe")
        .with_memory(memory)
        .with_module("UnityPlayer.dll", 0x4000, 0x100)
        .with_range(0x1000, 0x8, flags::HEAP);
    process.path = Some("/games/Timberborn.exe".to_string());
    process.modules.push(ModuleInfo {
        name: "mono.dll".to_string(),
        address: 0x5000,
        size: 0x200,
        path: Some("/games/mono.dll".to_string()),
    });
    process
}

#[test]
fn a_process_is_attached_to_by_name_or_by_number() {
    let mut world = World::new().with_process(process());
    assert_eq!(world.attach("Timberborn"), 0);
    assert_eq!(world.attach_by_pid(78), 0);
    let first = world.attach("Timberborn.exe");
    let second = world.attach_by_pid(77);
    assert_eq!((first, second), (1, 2));
    assert_eq!(world.list_by_name("Timberborn.exe"), [77]);
    assert!(world.is_open(first) && world.is_open(second) && !world.is_open(3));
    world.detach(first);
    world.detach(9);
    assert!(!world.is_open(first) && world.is_open(second));
    world.processes[0].open = false;
    assert!(!world.is_open(second));
    assert!(world.list_by_name("Timberborn.exe").is_empty());
    assert_eq!(world.attach("Timberborn.exe"), 0);
}

#[test]
fn an_attached_process_is_read_through_its_handle() {
    let mut world = World::new().with_process(process());
    let handle = world.attach_by_pid(77);
    let mut buf = [0u8; 4];
    assert!(world.read(handle, 0x1002, &mut buf));
    assert_eq!(buf, [3, 4, 5, 6]);
    assert!(!world.read(handle, 0x1006, &mut buf));
    assert!(!world.read(handle + 1, 0x1002, &mut buf));
    assert_eq!(world.module_address(handle, "UnityPlayer.dll"), 0x4000);
    assert_eq!(world.module_size(handle, "UnityPlayer.dll"), 0x100);
    assert_eq!(world.module_address(handle, "other.dll"), 0);
    assert_eq!(world.module_size(0, "UnityPlayer.dll"), 0);
    assert_eq!(world.path_of_module(handle, "mono.dll").map(String::as_str), Some("/games/mono.dll"));
    assert_eq!(world.path_of_module(handle, "UnityPlayer.dll"), None);
    assert_eq!(world.path(handle).map(String::as_str), Some("/games/Timberborn.exe"));
    assert_eq!(world.path(0), None);
    assert_eq!(world.range_count(handle), 1);
    assert_eq!(world.range_count(0), 0);
    let nothing = MemoryRange { address: 0, size: 0, flags: 0 };
    let range = world.range(handle, 0);
    assert_eq!((range.address, range.size, range.flags), (0x1000, 8, flags::HEAP));
    let beyond = world.range(handle, 1);
    assert_eq!((beyond.address, beyond.size), (nothing.address, nothing.size));
}

#[test]
fn a_buffer_that_is_too_small_is_told_what_is_needed() {
    let mut buf = [9u8; 4];
    assert_eq!(fill(b"abc", &mut buf), (3, true));
    assert_eq!(&buf, b"abc\x09");
    assert_eq!(fill(b"abcde", &mut buf), (5, false));
    assert_eq!(&buf, b"abc\x09");
}

#[test]
fn a_setting_is_what_is_forced_or_what_is_declared() {
    let mut world: World<EmptyMemory> = World::new().with_setting("start", false);
    assert!(!world.add_bool("start", true));
    assert!(world.add_bool("forester", true));
    assert!(!world.add_bool("first_bot", false));
    let keys: Vec<(&str, bool)> =
        world.registered_settings.iter().map(|(key, on)| (key.as_str(), *on)).collect();
    assert_eq!(keys, [("start", true), ("forester", true), ("first_bot", false)]);
    assert_eq!(world.setting("start"), Some(false));
    assert_eq!(world.setting("forester"), None);
}

#[test]
fn setting_values_live_behind_handles() {
    let mut world: World<EmptyMemory> = World::new();
    assert_eq!(world.map_get("start"), 0);
    let value = world.value_new(true);
    world.map_insert("start", value);
    assert_eq!(world.setting("start"), Some(true));
    let again = world.map_get("start");
    assert_ne!(again, value);
    assert_eq!(world.value_get(again), Some(true));
    let copy = world.value_copy(value);
    world.value_free(value);
    assert_eq!(world.value_get(value), None);
    assert_eq!(world.value_get(copy), Some(true));
    assert_eq!(world.value_copy(value), 0);
    world.map_insert("forester", value);
    assert_eq!(world.setting("forester"), None);
}

#[test]
fn what_the_splitter_says_and_does_is_kept() {
    let mut world: World<EmptyMemory> = World::new();
    assert_eq!((world.os.as_str(), world.arch.as_str()), ("linux", "x86_64"));
    assert_eq!(world.current_split_index(), -1);
    world.print_message("hello there".to_string());
    assert!(world.logged("o th") && !world.logged("Hello"));
    world.timer.record(TimerEvent::Start);
    world.timer.record(TimerEvent::Split);
    assert_eq!(world.current_split_index(), 1);
}
