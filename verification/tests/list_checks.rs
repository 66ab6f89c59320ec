use lib::emu::maps::ALLOC64_MIN;
use lib::emu::peb64::{
    can_unlink, dynamic_link_module, entry_is_loadable, init_peb, list_can_be_shown,
    list_can_open, load_order_length, try_get_module_base, unlink_module,
};
use lib::emu::Emu;

#[test]
fn an_empty_process_has_no_list() {
    let emu = Emu::new();
    assert!(!list_can_open(&emu));
    assert_eq!(load_order_length(&emu, 100), None);
    assert!(!can_unlink(&emu, "loader.exe", 100));
}

#[test]
fn list_length_counts_the_entries() {
    let mut emu = Emu::new();
    init_peb(&mut emu);
    assert!(list_can_open(&emu));
    assert!(entry_is_loadable(&emu, ALLOC64_MIN));
    assert!(!entry_is_loadable(&emu, 0));
    assert_eq!(load_order_length(&emu, 100), Some(1));
    assert!(list_can_be_shown(&emu, 1));
    dynamic_link_module(0x1_8000_0000, 0, "kernel32.dll", &mut emu);
    dynamic_link_module(0x1_9000_0000, 0, "ntdll.dll", &mut emu);
    assert_eq!(load_order_length(&emu, 100), Some(3));
    assert_eq!(load_order_length(&emu, 2), None);
    assert!(list_can_be_shown(&emu, 3));
}

#[test]
fn unlinking_needs_the_exact_name() {
    let mut emu = Emu::new();
    init_peb(&mut emu);
    dynamic_link_module(0x1_8000_0000, 0, "kernel32.dll", &mut emu);
    assert!(can_unlink(&emu, "kernel32.dll", 100));
    assert!(!can_unlink(&emu, "KERNEL32.DLL", 2));
    assert!(!can_unlink(&emu, "kernel32.dll", 1));
}

#[test]
fn an_unlinked_list_no_longer_closes() {
    let mut emu = Emu::new();
    init_peb(&mut emu);
    dynamic_link_module(0x1_8000_0000, 0, "kernel32.dll", &mut emu);
    unlink_module("kernel32.dll", &mut emu);
    assert_eq!(load_order_length(&emu, 100), None);
}

#[test]
fn a_checked_lookup_needs_a_list_that_closes() {
    let mut emu = Emu::new();
    assert_eq!(try_get_module_base("loader.exe", &mut emu, 100), None);
    init_peb(&mut emu);
    dynamic_link_module(0x1_8000_0000, 0, "kernel32.dll", &mut emu);
    assert_eq!(try_get_module_base("KERNEL32", &mut emu, 100), Some(Some(0x1_8000_0000)));
    assert_eq!(try_get_module_base("user32", &mut emu, 100), Some(None));
    assert_eq!(try_get_module_base("loader.exe", &mut emu, 1), None);
}
