use lib::emu::peb64::dll_name_of;
use lib::emu::text::{decode_byte_char, decode_wide_char, str_ends_with, str_eq};

#[test]
fn strings_compare_by_characters() {
    assert!(str_eq("ntdll.dll", "ntdll.dll"));
    assert!(!str_eq("ntdll.dll", "NTDLL.DLL"));
    assert!(!str_eq("ntdll", "ntdll.dll"));
    assert!(str_eq("", ""));
}

#[test]
fn suffixes_are_found() {
    assert!(str_ends_with("kernel32.dll", ".dll"));
    assert!(!str_ends_with("kernel32.DLL", ".dll"));
    assert!(!str_ends_with("dll", ".dll"));
    assert!(str_ends_with(".dll", ".dll"));
    assert!(str_ends_with("x", ""));
}

#[test]
fn code_units_decode_to_characters() {
    assert_eq!(decode_wide_char(0x41), 'A');
    assert_eq!(decode_wide_char(0x20ac), '\u{20ac}');
    assert_eq!(decode_wide_char(0xdfff), '\u{fffd}');
    assert_eq!(decode_byte_char(0xe9), '\u{e9}');
    assert_eq!(decode_byte_char(b'z'), 'z');
}

#[test]
fn lookups_also_accept_the_dll_name() {
    assert_eq!(dll_name_of("kernel32"), "kernel32.dll");
    assert_eq!(dll_name_of("kernel32.dll"), "kernel32.dll");
    assert_eq!(dll_name_of("loader.exe"), "loader.exe.dll");
    assert_eq!(dll_name_of(""), ".dll");
}
