use lib::emu::maps::{Maps, Mem64, ALLOC64_MIN, LIB64_MAX, LIB64_MIN};

#[test]
fn new_map_is_zero_and_named() {
    let mem = Mem64::new("stack", 0x1000, 0x20);
    assert_eq!(mem.get_name(), "stack");
    assert_eq!(mem.get_base(), 0x1000);
    assert_eq!(mem.get_size(), 0x20);
    assert_eq!(mem.read_qword(0x1018), 0);
    assert!(mem.inside(0x1018, 8));
    assert!(!mem.inside(0x1019, 8));
    assert!(!mem.inside(0xfff, 1));
}

#[test]
fn qword_reads_back_little_endian() {
    let mut maps = Maps::new();
    maps.create_map("data", 0x2000, 0x100);
    assert!(maps.write_qword(0x2010, 0x1122_3344_5566_7788));
    assert_eq!(maps.read_qword(0x2010), Some(0x1122_3344_5566_7788));
    assert_eq!(maps.read_byte(0x2010), Some(0x88));
    assert_eq!(maps.read_byte(0x2017), Some(0x11));
    assert_eq!(maps.read_word(0x2010), Some(0x7788));
    assert_eq!(maps.read_dword(0x2014), Some(0x1122_3344));
}

#[test]
fn writes_leave_other_bytes_alone() {
    let mut maps = Maps::new();
    maps.create_map("data", 0x2000, 0x100);
    maps.write_qword(0x2000, u64::MAX);
    maps.write_qword(0x2008, 5);
    assert_eq!(maps.read_qword(0x2000), Some(u64::MAX));
    assert_eq!(maps.read_qword(0x2008), Some(5));
    assert!(maps.write_word(0x2004, 0xabcd));
    assert_eq!(maps.read_qword(0x2000), Some(0xffff_abcd_ffff_ffff));
    assert!(maps.write_dword(0x2010, 0xdead_beef));
    assert_eq!(maps.read_dword(0x2010), Some(0xdead_beef));
    assert!(maps.write_byte(0x2013, 0));
    assert_eq!(maps.read_dword(0x2010), Some(0x00ad_beef));
}

#[test]
fn reads_and_writes_outside_every_map_fail() {
    let mut maps = Maps::new();
    maps.create_map("data", 0x2000, 0x10);
    assert_eq!(maps.read_qword(0x1ff8), None);
    assert_eq!(maps.read_qword(0x2009), None);
    assert_eq!(maps.read_byte(0x2010), None);
    assert!(!maps.write_qword(0x200c, 1));
    assert_eq!(maps.read_dword(0x200c), Some(0));
    assert_eq!(maps.holder_of(0x2000, 0x10), Some(0));
    assert_eq!(maps.holder_of(0x2000, 0x11), None);
}

#[test]
fn first_map_holding_a_range_serves_it() {
    let mut maps = Maps::new();
    maps.create_map("low", 0x3000, 0x10);
    maps.create_map("wide", 0x3000, 0x100);
    assert!(maps.write_byte(0x3001, 7));
    assert_eq!(maps.get(0).read_byte(0x3001), 7);
    assert_eq!(maps.get(1).read_byte(0x3001), 0);
    assert!(maps.write_qword(0x300c, 9));
    assert_eq!(maps.get(1).read_qword(0x300c), 9);
}

#[test]
fn maps_are_found_by_name() {
    let mut maps = Maps::new();
    maps.create_map("a", 0x1000, 1);
    maps.create_map("b", 0x2000, 2);
    maps.create_map("b", 0x3000, 3);
    assert_eq!(maps.find_mem("b"), Some(1));
    assert_eq!(maps.get_mem("b").get_base(), 0x2000);
    assert_eq!(maps.find_mem("c"), None);
    assert_eq!(maps.len(), 3);
}

#[test]
fn strings_read_up_to_their_terminator() {
    let mut maps = Maps::new();
    let mut mem = Mem64::new("str", 0x4000, 0x40);
    mem.write_wide_string(0x4000, "Ab\u{e9}\0");
    for (i, b) in b"name\0tail".iter().enumerate() {
        mem.write_byte(0x4020 + i as u64, *b);
    }
    maps.add_map(mem);
    assert_eq!(maps.read_wide_string(0x4000), "Ab\u{e9}");
    assert_eq!(maps.read_string(0x4020), "name");
    assert_eq!(maps.read_string(0x4025), "tail");
    assert_eq!(maps.read_wide_string(0x5000), "");
}

#[test]
fn strings_stop_at_the_end_of_the_map() {
    let mut maps = Maps::new();
    let mut mem = Mem64::new("str", 0x4000, 4);
    mem.write_byte(0x4000, b'o');
    mem.write_byte(0x4001, b'k');
    mem.write_byte(0x4002, b'!');
    mem.write_byte(0x4003, 0xe9);
    maps.add_map(mem);
    assert_eq!(maps.read_string(0x4000), "ok!\u{e9}");
    assert_eq!(maps.read_wide_string(0x4000), "\u{6b6f}\u{e921}");
}

#[test]
fn lone_surrogates_read_as_replacement_characters() {
    let mut maps = Maps::new();
    maps.create_map("str", 0x4000, 8);
    maps.write_word(0x4000, 0xd800);
    maps.write_word(0x4002, 0x41);
    assert_eq!(maps.read_wide_string(0x4000), "\u{fffd}A");
}

#[test]
fn allocator_gives_the_lowest_free_range() {
    let mut maps = Maps::new();
    assert_eq!(maps.lib64_alloc(0x58), Some(LIB64_MIN));
    assert_eq!(maps.alloc64(0x560), Some(ALLOC64_MIN));
    maps.create_map("one", LIB64_MIN, 0x58);
    assert_eq!(maps.lib64_alloc(0x10), Some(LIB64_MIN + 0x58));
    maps.create_map("two", LIB64_MIN + 0x100, 0x100);
    assert_eq!(maps.lib64_alloc(0xa8), Some(LIB64_MIN + 0x58));
    assert_eq!(maps.lib64_alloc(0xa9), Some(LIB64_MIN + 0x200));
}

#[test]
fn allocator_answers_none_when_nothing_fits() {
    let maps = Maps::new();
    assert_eq!(maps.lib64_alloc(LIB64_MAX - LIB64_MIN + 1), None);
    assert_eq!(maps.lib64_alloc(LIB64_MAX - LIB64_MIN), Some(LIB64_MIN));
    assert_eq!(maps.lowest_free(0x10, 0x100, 0x108), None);
}

#[test]
fn free_ranges_ignore_empty_maps() {
    let mut maps = Maps::new();
    maps.create_map("empty", 0x1000, 0);
    assert!(maps.range_free(0xff0, 0x20));
    maps.create_map("full", 0x1000, 0x10);
    assert!(!maps.range_free(0xff0, 0x11));
    assert!(maps.range_free(0xff0, 0x10));
    assert!(maps.range_free(0x1010, 0x10));
}
