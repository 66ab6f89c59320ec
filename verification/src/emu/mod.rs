//! The emulator's state and the process structures it keeps in memory.
pub mod loader_laws;
pub mod maps;
pub mod peb64;
pub mod structures;
pub mod text;
pub mod winapi64;

use crate::emu::maps::Maps;
use vstd::prelude::*;

verus! {

/// The general-purpose registers that the API gateway reads or sets.
pub struct Regs {
    pub rax: u64,
    pub rcx: u64,
    pub rdx: u64,
    pub r8: u64,
    pub r9: u64,
}

impl Regs {
    pub fn new() -> (r: Regs)
        ensures
            r.rax == 0 && r.rcx == 0 && r.rdx == 0 && r.r8 == 0 && r.r9 == 0,
    {
        Regs { rax: 0, rcx: 0, rdx: 0, r8: 0, r9: 0 }
    }
}

/// An emulated process: its memory maps and its registers.
pub struct Emu {
    pub maps: Maps,
    pub regs: Regs,
}

impl Emu {
    /// A process with no memory and cleared registers.
    pub fn new() -> (r: Emu)
        ensures
            r.maps@ == Seq::<crate::emu::maps::MemView>::empty(),
            r.regs.rax == 0 && r.regs.rcx == 0 && r.regs.rdx == 0 && r.regs.r8 == 0 && r.regs.r9 == 0,
    {
        Emu { maps: Maps::new(), regs: Regs::new() }
    }
}

} // verus!
