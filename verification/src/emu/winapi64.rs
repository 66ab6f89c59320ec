//! Dispatch of calls into the Windows API of a 64-bit process: which
//! library's handler a memory map's code belongs to, and what an
//! unimplemented call leaves in the registers.
use crate::emu::text::str_eq;
use vstd::string::*;
use crate::emu::Emu;
use vstd::prelude::*;

verus! {

/// The API libraries that have a handler.
#[derive(Debug, Clone, Copy, PartialEq, Eq, Structural)]
pub enum ApiLibrary {
    Kernel32,
    Ntdll,
    User32,
    Ws2_32,
    Wininet,
    Advapi32,
    Winhttp,
    Dnsapi,
    Comctl64,
    Shell32,
}

/// The library whose handler runs code of the map named `name`.
pub open spec fn api_library_of(name: Seq<char>) -> Option<ApiLibrary> {
    if name == "kernel32.text"@ || name == "kernel32.rdata"@ {
        Some(ApiLibrary::Kernel32)
    } else if name == "ntdll.text"@ {
        Some(ApiLibrary::Ntdll)
    } else if name == "user32.text"@ {
        Some(ApiLibrary::User32)
    } else if name == "ws2_32.text"@ {
        Some(ApiLibrary::Ws2_32)
    } else if name == "wininet.text"@ {
        Some(ApiLibrary::Wininet)
    } else if name == "advapi32.text"@ {
        Some(ApiLibrary::Advapi32)
    } else if name == "winhttp.text"@ {
        Some(ApiLibrary::Winhttp)
    } else if name == "dnsapi.text"@ {
        Some(ApiLibrary::Dnsapi)
    } else if name == "comctl32.text"@ {
        Some(ApiLibrary::Comctl64)
    } else if name == "shell32.text"@ {
        Some(ApiLibrary::Shell32)
    } else {
        None
    }
}

/// The library whose handler runs code of the map named `name`; `None` for
/// a map that holds no API code.
pub fn api_library(name: &str) -> (r: Option<ApiLibrary>)
    ensures
        r == api_library_of(name@),
{
    if str_eq(name, "kernel32.text") || str_eq(name, "kernel32.rdata") {
        Some(ApiLibrary::Kernel32)
    } else if str_eq(name, "ntdll.text") {
        Some(ApiLibrary::Ntdll)
    } else if str_eq(name, "user32.text") {
        Some(ApiLibrary::User32)
    } else if str_eq(name, "ws2_32.text") {
        Some(ApiLibrary::Ws2_32)
    } else if str_eq(name, "wininet.text") {
        Some(ApiLibrary::Wininet)
    } else if str_eq(name, "advapi32.text") {
        Some(ApiLibrary::Advapi32)
    } else if str_eq(name, "winhttp.text") {
        Some(ApiLibrary::Winhttp)
    } else if str_eq(name, "dnsapi.text") {
        Some(ApiLibrary::Dnsapi)
    } else if str_eq(name, "comctl32.text") {
        Some(ApiLibrary::Comctl64)
    } else if str_eq(name, "shell32.text") {
        Some(ApiLibrary::Shell32)
    } else {
        None
    }
}

/// Ends an API call: a handler that names an unimplemented function gets
/// `1` in `rax`. Returns whether the call was unimplemented.
pub fn finish_api_call(unimplemented_api: &str, emu: &mut Emu) -> (r: bool)
    ensures
        r == (unimplemented_api@.len() > 0),
        final(emu).maps == old(emu).maps,
        final(emu).regs.rax == if r { 1 } else { old(emu).regs.rax },
        final(emu).regs.rcx == old(emu).regs.rcx,
        final(emu).regs.rdx == old(emu).regs.rdx,
        final(emu).regs.r8 == old(emu).regs.r8,
        final(emu).regs.r9 == old(emu).regs.r9,
{
    if unimplemented_api.unicode_len() > 0 {
        emu.regs.rax = 1;
        true
    } else {
        false
    }
}

} // verus!
