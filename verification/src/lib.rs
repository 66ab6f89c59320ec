//! Windows x64 process-environment structures (PEB, loader data and the
//! loader's module lists) laid out in the emulated memory of an emulator.
pub mod emu;
