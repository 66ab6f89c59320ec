use lib::emu::maps::{ALLOC64_MIN, LIB64_MIN};
use lib::emu::peb64::{
    create_ldr_entry, dynamic_link_module, try_update_ldr_entry_base, get_module_base, init_ldr, init_peb, linked_modules,
    unlink_module, update_ldr_entry_base, update_peb_image_base, Flink,
};
use lib::emu::structures::{LdrDataTableEntry64, PebLdrData64, PEB64};
use lib::emu::Emu;

const ENTRY_SPACE: u64 = 0x120 + 0x40 + 1024;

fn emu_with_peb() -> Emu {
    let mut emu = Emu::new();
    init_peb(&mut emu);
    emu
}

#[test]
fn loader_data_goes_first_among_loader_structures() {
    let mut emu = Emu::new();
    let ldr = init_ldr(&mut emu);
    assert_eq!(ldr, LIB64_MIN);
    assert_eq!(emu.maps.get_mem("ldr").get_size(), PebLdrData64::size() as u64);
    let entry = ALLOC64_MIN;
    assert_eq!(emu.maps.read_dword(ldr + 4), Some(1));
    assert_eq!(emu.maps.read_qword(ldr + 0x10), Some(entry));
    assert_eq!(emu.maps.read_qword(ldr + 0x18), Some(entry));
    assert_eq!(emu.maps.read_qword(ldr + 0x20), Some(entry + 0x10));
    assert_eq!(emu.maps.read_qword(ldr + 0x28), Some(entry + 0x10));
    assert_eq!(emu.maps.read_qword(ldr + 0x30), Some(entry + 0x20));
    assert_eq!(emu.maps.read_qword(ldr + 0x40), Some(entry));
    assert_eq!(emu.maps.get_mem("loader.exe.ldr").get_base(), entry);
}

#[test]
fn peb_points_at_the_loader_data() {
    let emu = emu_with_peb();
    let peb = emu.maps.get_mem("peb");
    assert_eq!(peb.get_base(), LIB64_MIN + PebLdrData64::size() as u64);
    assert_eq!(peb.get_size(), PEB64::size() as u64);
    let base = peb.get_base();
    assert_eq!(emu.maps.read_qword(base + 0x18), Some(LIB64_MIN));
    assert_eq!(emu.maps.read_qword(base + 0x20), Some(0x521e20));
    assert_eq!(emu.maps.read_qword(base + 0x10), Some(0));
    assert_eq!(emu.maps.read_byte(base + 2), Some(0));
    assert_eq!(emu.maps.read_qword(base + 8), Some(u64::MAX));
}

#[test]
fn fresh_peb_lists_only_the_main_module() {
    let mut emu = emu_with_peb();
    let mut flink = Flink::new(&mut emu);
    assert_eq!(flink.get_ptr(), ALLOC64_MIN);
    flink.load(&mut emu);
    assert_eq!(flink.mod_name, "loader.exe");
    assert_eq!(flink.mod_base, 0);
    assert_eq!(flink.pe_hdr, 0);
    assert!(!flink.has_module());
    assert_eq!(flink.get_next_flink(&mut emu), ALLOC64_MIN);
    assert_eq!(flink.get_prev_flink(&mut emu), ALLOC64_MIN);
    assert_eq!(get_module_base("loader.exe", &mut emu), Some(0));
    assert_eq!(get_module_base("LOADER.EXE", &mut emu), Some(0));
    assert_eq!(get_module_base("loader", &mut emu), None);
    assert_eq!(get_module_base("kernel32", &mut emu), None);
}

#[test]
fn linked_modules_are_found_with_or_without_dll() {
    let mut emu = emu_with_peb();
    dynamic_link_module(0x7ff6_0000_0000, 0x1000, "kernel32.dll", &mut emu);
    dynamic_link_module(0x7ff7_0000_0000, 0x2000, "ntdll.dll", &mut emu);
    assert_eq!(get_module_base("kernel32", &mut emu), Some(0x7ff6_0000_0000));
    assert_eq!(get_module_base("KERNEL32.DLL", &mut emu), Some(0x7ff6_0000_0000));
    assert_eq!(get_module_base("ntdll", &mut emu), Some(0x7ff7_0000_0000));
    assert_eq!(get_module_base("user32", &mut emu), None);
    assert_eq!(get_module_base("loader.exe", &mut emu), Some(0));
}

#[test]
fn a_linked_module_sits_between_the_last_and_the_first_entry() {
    let mut emu = emu_with_peb();
    let first = ALLOC64_MIN;
    dynamic_link_module(0x1_8000_0000, 0x1234, "user32.dll", &mut emu);
    let space = first + ENTRY_SPACE;
    assert_eq!(emu.maps.read_qword(space), Some(first));
    assert_eq!(emu.maps.read_qword(space + 8), Some(first));
    assert_eq!(emu.maps.read_qword(first), Some(space));
    assert_eq!(emu.maps.read_qword(first + 8), Some(space));
    assert_eq!(emu.maps.read_qword(first + 0x18), Some(space + 0x10));
    assert_eq!(emu.maps.read_qword(first + 0x28), Some(space + 0x20));
    assert_eq!(emu.maps.read_qword(space + 0x30), Some(0x1_8000_0000));
    assert_eq!(emu.maps.read_qword(space + 0x38), Some(0x1234));
    assert_eq!(emu.maps.read_qword(space + 0x50), Some(space + 0x120));
    assert_eq!(emu.maps.read_wide_string(space + 0x120), "user32.dll");
    assert_eq!(emu.maps.get_mem("user32.dll.ldr").get_base(), space);
    assert_eq!(emu.maps.read_byte(space + ENTRY_SPACE - 1), Some(0x61));
    dynamic_link_module(0x1_9000_0000, 0, "ws2_32.dll", &mut emu);
    let third = space + ENTRY_SPACE;
    assert_eq!(emu.maps.read_qword(space), Some(third));
    assert_eq!(emu.maps.read_qword(third), Some(first));
    assert_eq!(emu.maps.read_qword(third + 8), Some(space));
    assert_eq!(emu.maps.read_qword(first + 8), Some(third));
}

#[test]
fn a_created_entry_without_neighbours_links_to_itself() {
    let mut emu = Emu::new();
    let a = create_ldr_entry(&mut emu, 0x40_0000, 0x40_1000, "app.exe", 0, 0);
    assert_eq!(a, ALLOC64_MIN);
    assert_eq!(emu.maps.read_qword(a), Some(a));
    assert_eq!(emu.maps.read_qword(a + 8), Some(a));
    assert_eq!(emu.maps.read_qword(a + 0x10), Some(a + 0x10));
    assert_eq!(emu.maps.read_qword(a + 0x28), Some(a + 0x20));
    assert_eq!(emu.maps.read_qword(a + 0x30), Some(0x40_0000));
    assert_eq!(emu.maps.read_qword(a + 0x38), Some(0x40_1000));
    assert_eq!(emu.maps.read_qword(a + 0x60), Some(a + LdrDataTableEntry64::size()));
    assert_eq!(emu.maps.read_qword(a + 0x70), Some(0));
    assert_eq!(emu.maps.read_wide_string(a + 0x120), "app.exe");
}

#[test]
fn a_created_entry_with_neighbours_links_between_them() {
    let mut emu = Emu::new();
    let a = create_ldr_entry(&mut emu, 1, 2, "x", 0x5000, 0x6000);
    assert_eq!(emu.maps.read_qword(a), Some(0x5000));
    assert_eq!(emu.maps.read_qword(a + 8), Some(0x6000));
    assert_eq!(emu.maps.read_qword(a + 0x10), Some(0x6010));
    assert_eq!(emu.maps.read_qword(a + 0x18), Some(0x5010));
    assert_eq!(emu.maps.read_qword(a + 0x20), Some(0x5020));
    assert_eq!(emu.maps.read_qword(a + 0x28), Some(0x6020));
    assert_eq!(emu.maps.read_qword(a + 0x70), Some(0x5000));
    assert_eq!(emu.maps.read_qword(a + 0x78), Some(0x6000));
}

#[test]
fn updating_an_entry_base_changes_what_lookup_finds() {
    let mut emu = emu_with_peb();
    dynamic_link_module(0x1000_0000_0000, 0, "kernel32.dll", &mut emu);
    update_ldr_entry_base("KERNEL32.dll", 0x2000_0000_0000, &mut emu);
    assert_eq!(get_module_base("kernel32", &mut emu), Some(0x2000_0000_0000));
    let mut flink = Flink::new(&mut emu);
    flink.next(&mut emu);
    assert_eq!(flink.mod_base, 0x2000_0000_0000);
    assert!(flink.has_module());
}

#[test]
fn set_mod_base_writes_the_entry() {
    let mut emu = emu_with_peb();
    let mut flink = Flink::new(&mut emu);
    flink.load(&mut emu);
    flink.set_mod_base(0x1234_0000, &mut emu);
    assert_eq!(flink.mod_base, 0x1234_0000);
    let mut again = Flink::new(&mut emu);
    again.get_mod_base(&mut emu);
    assert_eq!(again.mod_base, 0x1234_0000);
    again.set_ptr(0);
    assert_eq!(again.get_ptr(), 0);
}

#[test]
fn peb_image_base_is_updated() {
    let mut emu = emu_with_peb();
    update_peb_image_base(&mut emu, 0x14000_0000);
    let base = emu.maps.get_mem("peb").get_base();
    assert_eq!(emu.maps.read_qword(base + 0x10), Some(0x14000_0000));
}

#[test]
fn linked_modules_are_listed_in_load_order() {
    let mut emu = emu_with_peb();
    dynamic_link_module(0x1_8000_0000, 0, "kernel32.dll", &mut emu);
    let lines = linked_modules(&mut emu);
    assert_eq!(lines.len(), 2);
    assert_eq!(lines[0].ptr, ALLOC64_MIN);
    assert_eq!(lines[0].name, "loader.exe");
    assert_eq!(lines[0].flink, ALLOC64_MIN + ENTRY_SPACE);
    assert_eq!(lines[0].blink, ALLOC64_MIN + ENTRY_SPACE);
    assert_eq!(lines[1].name, "kernel32.dll");
    assert_eq!(lines[1].base, 0x1_8000_0000);
    assert_eq!(lines[1].flink, ALLOC64_MIN);
    assert_eq!(lines[1].blink, ALLOC64_MIN);
    assert_eq!(lines[1].pe_hdr, 0);
    assert_eq!(lines[1].pe1, 0);
}

#[test]
fn unlinking_clears_the_forward_link_before_the_module() {
    let mut emu = emu_with_peb();
    dynamic_link_module(0x1_8000_0000, 0, "kernel32.dll", &mut emu);
    dynamic_link_module(0x1_9000_0000, 0, "ntdll.dll", &mut emu);
    let second = ALLOC64_MIN + ENTRY_SPACE;
    let third = second + ENTRY_SPACE;
    let report = unlink_module("kernel32.dll", &mut emu);
    assert_eq!(report.passed.len(), 1);
    assert_eq!(report.passed[0], "loader.exe");
    assert_eq!(report.prev_flink, ALLOC64_MIN);
    assert_eq!(report.next_flink, third);
    assert_eq!(emu.maps.read_qword(ALLOC64_MIN), Some(0));
    assert_eq!(emu.maps.read_qword(third + 4), Some(ALLOC64_MIN));
    assert_eq!(emu.maps.read_qword(second), Some(third));
}

/// Builds a module image with a PE header at 0x80 and an export table of
/// two functions, `alpha` and `beta`, whose ordinals are swapped.
fn emu_with_export_table(base: u64) -> Emu {
    let mut emu = emu_with_peb();
    emu.maps.create_map("image", base, 0x1000);
    let m = &mut emu.maps;
    m.write_dword(base + 0x3c, 0x80);
    m.write_dword(base + 0x80 + 0x88, 0x200);
    let et = base + 0x200;
    m.write_dword(et + 0x18, 2);
    m.write_dword(et + 0x1c, 0x300);
    m.write_dword(et + 0x20, 0x320);
    m.write_dword(et + 0x24, 0x340);
    m.write_dword(base + 0x300, 0x1111);
    m.write_dword(base + 0x304, 0x2222);
    m.write_dword(base + 0x320, 0x400);
    m.write_dword(base + 0x324, 0x410);
    m.write_word(base + 0x340, 1);
    m.write_word(base + 0x342, 0);
    for (i, b) in b"alpha\0".iter().enumerate() {
        m.write_byte(base + 0x400 + i as u64, *b);
    }
    for (i, b) in b"beta\0".iter().enumerate() {
        m.write_byte(base + 0x410 + i as u64, *b);
    }
    dynamic_link_module(base, 0, "lib.dll", &mut emu);
    emu
}

#[test]
fn export_table_is_read_from_the_pe_header() {
    let base = 0x6000_0000;
    let mut emu = emu_with_export_table(base);
    let mut flink = Flink::new(&mut emu);
    flink.load(&mut emu);
    flink.next(&mut emu);
    assert_eq!(flink.mod_name, "lib.dll");
    assert_eq!(flink.pe_hdr, 0x80);
    assert_eq!(flink.export_table_rva, 0x200);
    assert_eq!(flink.export_table, base + 0x200);
    assert_eq!(flink.num_of_funcs, 2);
    assert_eq!(flink.func_name_tbl_rva, 0x320);
    assert_eq!(flink.func_name_tbl, base + 0x320);
}

#[test]
fn function_ordinals_lead_to_addresses() {
    let base = 0x6000_0000;
    let mut emu = emu_with_export_table(base);
    let mut flink = Flink::new(&mut emu);
    flink.next(&mut emu);
    let first = flink.get_function_ordinal(&mut emu, 0);
    assert_eq!(first.func_name, "alpha");
    assert_eq!(first.ordinal_tbl_rva, 0x340);
    assert_eq!(first.ordinal_tbl, base + 0x340);
    assert_eq!(first.ordinal, 1);
    assert_eq!(first.func_addr_tbl_rva, 0x300);
    assert_eq!(first.func_addr_tbl, base + 0x300);
    assert_eq!(first.func_rva, 0x2222);
    assert_eq!(first.func_va, base + 0x2222);
    let second = flink.get_function_ordinal(&mut emu, 1);
    assert_eq!(second.func_name, "beta");
    assert_eq!(second.ordinal, 0);
    assert_eq!(second.func_va, base + 0x1111);
}

#[test]
fn a_module_without_export_table_keeps_the_previous_fields() {
    let base = 0x6000_0000;
    let mut emu = emu_with_export_table(base);
    emu.maps.write_dword(base + 0x80 + 0x88, 0);
    let mut flink = Flink::new(&mut emu);
    flink.export_table = 77;
    flink.load(&mut emu);
    flink.next(&mut emu);
    assert_eq!(flink.pe_hdr, 0x80);
    assert_eq!(flink.export_table_rva, 0);
    assert_eq!(flink.export_table, 77);
}

#[test]
fn a_checked_base_update_changes_only_a_found_entry() {
    let mut emu = emu_with_peb();
    dynamic_link_module(0x1000_0000_0000, 0, "kernel32.dll", &mut emu);
    assert!(!try_update_ldr_entry_base("user32.dll", 5, &mut emu, 100));
    assert!(!try_update_ldr_entry_base("kernel32.dll", 5, &mut emu, 1));
    assert_eq!(get_module_base("kernel32", &mut emu), Some(0x1000_0000_0000));
    assert!(try_update_ldr_entry_base("Kernel32.DLL", 0x3000_0000_0000, &mut emu, 2));
    assert_eq!(get_module_base("kernel32", &mut emu), Some(0x3000_0000_0000));
}

#[test]
fn ascii_case_and_dll_suffix_do_not_change_a_lookup() {
    let mut emu = emu_with_peb();
    dynamic_link_module(0x1_8000_0000, 0, "Advapi32.dll", &mut emu);
    for name in ["advapi32", "ADVAPI32", "AdvApi32", "advapi32.dll", "ADVAPI32.DLL"] {
        assert_eq!(get_module_base(name, &mut emu), Some(0x1_8000_0000));
    }
    assert_eq!(get_module_base("advapi", &mut emu), None);
}

#[test]
fn a_fresh_process_opens_on_the_main_module() {
    let mut emu = Emu::new();
    init_peb(&mut emu);
    let flink = Flink::new(&mut emu);
    assert_eq!(flink.get_ptr(), emu.maps.get_mem("loader.exe.ldr").get_base());
    assert_eq!(flink.get_ptr(), ALLOC64_MIN);
    assert_eq!(flink.mod_base, 0);
    assert_eq!(flink.mod_name, "");
}
