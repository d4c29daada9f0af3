//! What a maps listing says, and what is made of it.
use timberborn_autosplitter::live::{
    comm_matches, find_by_comm, has_game_mapped, mappings, modules, parse_mapping, ranges,
};
use timberborn_autosplitter::memory::flags;

#[test]
fn parses_a_maps_line() {
    let line = "7f2c4a800000-7f2c4a9f4000 r-xp 00001000 08:02 1234567  /usr/lib/libc.so.6";
    let m = parse_mapping(line).unwrap();
    assert_eq!(m.address, 0x7f2c_4a80_0000);
    assert_eq!(m.size, 0x1f4000);
    assert_eq!(m.file_offset, 0x1000);
    assert_eq!(m.flags, flags::READ | flags::EXECUTE | flags::PATH);
    assert_eq!(m.file_name().as_deref(), Some("libc.so.6"));
}

/// Steam library paths have spaces in them, so the path cannot be taken as the
/// sixth whitespace-separated field.
#[test]
fn parses_a_path_containing_spaces() {
    let line =
        "140000000-140010000 rw-p 00000000 08:02 99  /games/steam apps/Timberborn/Timberborn.exe";
    let m = parse_mapping(line).unwrap();
    assert_eq!(m.file_name().as_deref(), Some("Timberborn.exe"));
    assert_eq!(m.flags, flags::READ | flags::WRITE | flags::PATH);
}

#[test]
fn parses_an_anonymous_mapping() {
    let m = parse_mapping("55a0-55b0 rw-p 00000000 00:00 0").unwrap();
    assert!(m.path.is_none());
    assert_eq!(m.flags, flags::READ | flags::WRITE);
    assert!(!m.is_special());
}

#[test]
fn groups_consecutive_mappings_of_one_file_into_a_module() {
    let maps = "\
400000-401000 r--p 00000000 08:02 1 /game/Timberborn.exe
401000-410000 r-xp 00001000 08:02 1 /game/Timberborn.exe
500000-501000 r--p 00000000 08:02 2 /game/mono-2.0-bdwgc.dll";
    let modules = modules(&mappings(maps));

    assert_eq!(modules.len(), 2);
    assert_eq!(modules[0].name, "Timberborn.exe");
    assert_eq!(modules[0].address, 0x400000);
    assert_eq!(modules[0].size, 0x10000, "the run's sizes summed");
    assert_eq!(modules[1].name, "mono-2.0-bdwgc.dll");
}

/// A mapping of another file ends a module's run, and so does one of none.
#[test]
fn a_module_ends_where_another_file_begins() {
    let maps = "\
400000-401000 r--p 00000000 08:02 1 /game/Timberborn.exe
401000-402000 rw-p 00000000 00:00 0
402000-403000 r--p 00000000 08:02 1 /game/Timberborn.exe
500000-501000 r--p 00000000 08:02 2 /game/mono-2.0-bdwgc.dll
600000-601000 r--p 00000000 08:02 1 /game/Timberborn.exe";
    let modules = modules(&mappings(maps));
    assert_eq!(modules.len(), 4);
    assert_eq!(modules[0].size, 0x1000);
    assert_eq!(modules[1].address, 0x402000);
    assert_eq!(modules[3].address, 0x600000);
    assert_eq!(modules[3].path.as_deref(), Some("/game/Timberborn.exe"));
}

#[test]
fn lines_that_are_not_mappings_are_passed_over() {
    assert!(parse_mapping("").is_none());
    assert!(parse_mapping("nonsense").is_none());
    assert!(parse_mapping("400-xyz r--p 0 0:0 0").is_none());
    assert!(parse_mapping("400-500 r--p nothex 0:0 0").is_none());
    assert_eq!(parse_mapping("500-400 r--p 0 0:0 0").unwrap().size, 0);
}

#[test]
fn device_and_kernel_mappings_are_special() {
    for path in ["/dev/dri/card0", "[vvar]", "[vvar_vclock]", "[vsyscall]", "/memfd:wine-mapping"] {
        let line = format!("1000-2000 rw-p 00000000 00:00 0 {path}");
        assert!(parse_mapping(&line).unwrap().is_special(), "{path}");
    }
    for path in ["[heap]", "/memfd:doublemapper", "/devices/x"] {
        let line = format!("1000-2000 rw-p 00000000 00:00 0 {path}");
        assert!(!parse_mapping(&line).unwrap().is_special(), "{path}");
    }
}

#[test]
fn ranges_keep_their_flags() {
    let all = mappings("1000-3000 r-xp 00000000 08:02 1 /game/a\n4000-5000 ---p 00000000 00:00 0");
    let ranges = ranges(&all);
    assert_eq!(ranges[0].address, 0x1000);
    assert_eq!(ranges[0].size, 0x2000);
    assert_eq!(ranges[0].flags, flags::READ | flags::EXECUTE | flags::PATH);
}

/// What the kernel reports of a name is its first fifteen characters.
#[test]
fn a_long_name_matches_what_the_kernel_keeps_of_it() {
    assert!(comm_matches("Timberborn.exe\n", "Timberborn.exe"));
    assert!(!comm_matches("Timberborn.exe\n", "Timberborn"));
    assert!(!comm_matches("firefox\n", "Timberborn.exe"));
}

#[test]
fn the_mappings_of_a_process_are_read_line_by_line() {
    let text = "00400000-00401000 r-xp 00000000 08:01 12 /opt/game/Timberborn_Data/a.so\n\
                not a mapping\n\
                00500000-00502000 rw-p 00000000 00:00 0\n";
    let read = mappings(text);
    assert_eq!(read.len(), 2);
    assert_eq!((read[0].address, read[0].size), (0x400000, 0x1000));
    assert_eq!((read[1].address, read[1].size), (0x500000, 0x2000));
    assert!(mappings("").is_empty());
}

#[test]
fn the_game_is_known_by_the_files_it_has_mapped() {
    assert!(has_game_mapped("a\n1-2 r--p 0 0 0 /x/Timberborn_Data/y\nb"));
    assert!(has_game_mapped("1-2 r--p 0 0 0 /x/Timberborn.exe"));
    assert!(!has_game_mapped("1-2 r--p 0 0 0 /x/Timberborn.exe (deleted)\n/Timberborn_Dat"));
    assert!(!has_game_mapped(""));
}

#[test]
fn processes_are_found_by_name_in_order() {
    let comms = vec![
        (30, "Unity Main Thre\n".to_string()),
        (7, "bash\n".to_string()),
        (12, "Unity Main Thre".to_string()),
        (9, "Unity Main Threa".to_string()),
    ];
    assert_eq!(find_by_comm(&comms, "Unity Main Thre"), [12, 30]);
    assert!(find_by_comm(&comms, "Timberborn.exe").is_empty());
}

/// A mapping without a file name ends the run it stands in.
#[test]
fn a_nameless_mapping_ends_a_module() {
    let maps = "\
1000-2000 r--p 00000000 08:02 1 /g/a.dll
2000-3000 rw-p 00000000 00:00 0
3000-4000 r--p 00000000 08:02 1 /g/a.dll
4000-5000 r--p 00000000 08:02 1 /g/a.dll
";
    let found = modules(&mappings(maps));
    let places: Vec<(&str, u64, u64)> =
        found.iter().map(|m| (m.name.as_str(), m.address, m.size)).collect();
    assert_eq!(places, [("a.dll", 0x1000, 0x1000), ("a.dll", 0x3000, 0x2000)]);
}
