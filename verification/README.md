# Loader structures of an emulated Windows x64 process

A verified library for the part of a Windows emulator that builds the
process environment block (PEB), the loader data and the loader's module
lists in emulated memory, walks the load-order list, looks modules up by
name, and links modules in and out.

- `src/emu/maps.rs`: the emulated address space — named memory maps,
  little-endian reads and writes, NUL-terminated byte and UTF-16 strings,
  and a first-fit allocator; with the laws of reading back what was written.
- `src/emu/structures.rs`: `LIST_ENTRY`, `PEB_LDR_DATA`, `PEB` and
  `LDR_DATA_TABLE_ENTRY`, and the layout in which they are saved.
- `src/emu/peb64.rs`: setting the PEB and loader data up, the cursor on the
  load-order list (`Flink`), module lookup, linking and unlinking.
- `src/emu/loader_laws.rs`: what the structures promise once built.
- `src/emu/winapi64.rs`: which API library handles a code map, and the
  result of an unimplemented call.
- `app/`: console output and the hand-over to API handlers.
