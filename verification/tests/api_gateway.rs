use lib::emu::winapi64::{api_library, finish_api_call, ApiLibrary};
use lib::emu::Emu;

#[test]
fn code_maps_select_their_library() {
    assert_eq!(api_library("kernel32.text"), Some(ApiLibrary::Kernel32));
    assert_eq!(api_library("kernel32.rdata"), Some(ApiLibrary::Kernel32));
    assert_eq!(api_library("ntdll.text"), Some(ApiLibrary::Ntdll));
    assert_eq!(api_library("user32.text"), Some(ApiLibrary::User32));
    assert_eq!(api_library("ws2_32.text"), Some(ApiLibrary::Ws2_32));
    assert_eq!(api_library("wininet.text"), Some(ApiLibrary::Wininet));
    assert_eq!(api_library("advapi32.text"), Some(ApiLibrary::Advapi32));
    assert_eq!(api_library("winhttp.text"), Some(ApiLibrary::Winhttp));
    assert_eq!(api_library("dnsapi.text"), Some(ApiLibrary::Dnsapi));
    assert_eq!(api_library("comctl32.text"), Some(ApiLibrary::Comctl64));
    assert_eq!(api_library("shell32.text"), Some(ApiLibrary::Shell32));
}

#[test]
fn other_maps_select_no_library() {
    assert_eq!(api_library("kernel32.data"), None);
    assert_eq!(api_library("KERNEL32.text"), None);
    assert_eq!(api_library(""), None);
}

#[test]
fn unimplemented_calls_return_one() {
    let mut emu = Emu::new();
    emu.regs.rax = 5;
    emu.regs.rcx = 7;
    assert!(!finish_api_call("", &mut emu));
    assert_eq!(emu.regs.rax, 5);
    assert!(finish_api_call("CreateMutexA", &mut emu));
    assert_eq!(emu.regs.rax, 1);
    assert_eq!(emu.regs.rcx, 7);
}
