//! The Windows x64 structures that the loader keeps in process memory, with
//! the layout in which they are saved there.
use crate::emu::maps::{
    write_u16, write_u32, write_u64, Maps, Mem64, MemView,
};
use vstd::bytes::{spec_u64_to_le_bytes};
use vstd::prelude::*;

verus! {

/// Bytes of a saved `PEB_LDR_DATA`.
pub const PEB_LDR_DATA64_SIZE: usize = 0x60;

/// Bytes of a saved `PEB`.
pub const PEB64_SIZE: usize = 0x7c8;

/// Bytes of a saved `LDR_DATA_TABLE_ENTRY`.
pub const LDR_DATA_TABLE_ENTRY64_SIZE: u64 = 0x120;

/// A `LIST_ENTRY`: forward and backward links of a doubly linked list.
#[derive(Clone, Copy)]
pub struct ListEntry64 {
    pub flink: u64,
    pub blink: u64,
}

/// The memory after saving a list entry at `addr`: `flink` at `addr`,
/// `blink` at `addr + 8`.
pub open spec fn save_list_entry(m: Seq<MemView>, addr: int, e: ListEntry64) -> Seq<MemView> {
    write_u64(write_u64(m, addr, e.flink), addr + 8, e.blink)
}

/// A list entry that links nowhere.
pub open spec fn unlinked() -> ListEntry64 {
    ListEntry64 { flink: 0, blink: 0 }
}

impl ListEntry64 {
    pub fn new() -> (r: ListEntry64)
        ensures
            r == unlinked(),
    {
        ListEntry64 { flink: 0, blink: 0 }
    }

    pub fn save(&self, addr: u64, maps: &mut Maps)
        requires
            addr + 16 <= u64::MAX,
        ensures
            final(maps)@ == save_list_entry(old(maps)@, addr as int, *self),
    {
        maps.write_qword(addr, self.flink);
        maps.write_qword(addr + 8, self.blink);
    }
}

/// `PEB_LDR_DATA`: the loader's bookkeeping, with the heads of the three
/// module lists.
#[derive(Clone, Copy)]
pub struct PebLdrData64 {
    pub length: u32,
    pub initializated: u32,
    pub sshandle: u64,
    pub in_load_order_module_list: ListEntry64,
    pub in_memory_order_module_list: ListEntry64,
    pub in_initialization_order_module_list: ListEntry64,
    pub entry_in_progress: ListEntry64,
    pub shutdown_in_progress: u32,
    pub shutdown_thread_id: u64,
}

/// The memory after saving loader data at `addr`.
pub open spec fn save_peb_ldr_data(m: Seq<MemView>, addr: int, d: PebLdrData64) -> Seq<MemView> {
    let m1 = write_u32(m, addr, d.length);
    let m2 = write_u32(m1, addr + 4, d.initializated);
    let m3 = write_u64(m2, addr + 8, d.sshandle);
    let m4 = save_list_entry(m3, addr + 0x10, d.in_load_order_module_list);
    let m5 = save_list_entry(m4, addr + 0x20, d.in_memory_order_module_list);
    let m6 = save_list_entry(m5, addr + 0x30, d.in_initialization_order_module_list);
    let m7 = save_list_entry(m6, addr + 0x40, d.entry_in_progress);
    let m8 = write_u32(m7, addr + 0x50, d.shutdown_in_progress);
    write_u64(m8, addr + 0x58, d.shutdown_thread_id)
}

/// Loader data with no module in any list.
pub open spec fn empty_peb_ldr_data() -> PebLdrData64 {
    PebLdrData64 {
        length: PEB_LDR_DATA64_SIZE as u32,
        initializated: 0,
        sshandle: 0,
        in_load_order_module_list: unlinked(),
        in_memory_order_module_list: unlinked(),
        in_initialization_order_module_list: unlinked(),
        entry_in_progress: unlinked(),
        shutdown_in_progress: 0,
        shutdown_thread_id: 0,
    }
}

impl PebLdrData64 {
    pub fn size() -> (r: usize)
        ensures
            r == PEB_LDR_DATA64_SIZE,
    {
        PEB_LDR_DATA64_SIZE
    }

    /// Empty loader data: no module in any list.
    pub fn new() -> (r: PebLdrData64)
        ensures
            r == empty_peb_ldr_data(),
    {
        PebLdrData64 {
            length: PEB_LDR_DATA64_SIZE as u32,
            initializated: 0,
            sshandle: 0,
            in_load_order_module_list: ListEntry64::new(),
            in_memory_order_module_list: ListEntry64::new(),
            in_initialization_order_module_list: ListEntry64::new(),
            entry_in_progress: ListEntry64::new(),
            shutdown_in_progress: 0,
            shutdown_thread_id: 0,
        }
    }

    pub fn save(&self, addr: u64, maps: &mut Maps)
        requires
            addr + PEB_LDR_DATA64_SIZE <= u64::MAX,
        ensures
            final(maps)@ == save_peb_ldr_data(old(maps)@, addr as int, *self),
    {
        maps.write_dword(addr, self.length);
        maps.write_dword(addr + 4, self.initializated);
        maps.write_qword(addr + 8, self.sshandle);
        self.in_load_order_module_list.save(addr + 0x10, maps);
        self.in_memory_order_module_list.save(addr + 0x20, maps);
        self.in_initialization_order_module_list.save(addr + 0x30, maps);
        self.entry_in_progress.save(addr + 0x40, maps);
        maps.write_dword(addr + 0x50, self.shutdown_in_progress);
        maps.write_qword(addr + 0x58, self.shutdown_thread_id);
    }
}

/// `PEB`: the process environment block, up to its process parameters.
#[derive(Clone, Copy)]
pub struct PEB64 {
    pub inherited_address_space: u8,
    pub read_image_file_exec_options: u8,
    pub being_debugged: u8,
    pub bit_field: u8,
    pub mutant: u64,
    pub image_base_address: u64,
    pub ldr: u64,
    pub process_parameters: u64,
}

/// A map after saving a PEB at its base.
pub open spec fn save_peb(r: MemView, p: PEB64) -> MemView {
    let b = r.base;
    r.overwrite(b, seq![p.inherited_address_space]).overwrite(b + 1, seq![p.read_image_file_exec_options])
        .overwrite(b + 2, seq![p.being_debugged]).overwrite(b + 3, seq![p.bit_field]).overwrite(
        b + 8,
        spec_u64_to_le_bytes(p.mutant),
    ).overwrite(b + 0x10, spec_u64_to_le_bytes(p.image_base_address)).overwrite(
        b + 0x18,
        spec_u64_to_le_bytes(p.ldr),
    ).overwrite(b + 0x20, spec_u64_to_le_bytes(p.process_parameters))
}

/// A PEB of a process that no debugger watches.
pub open spec fn peb64_value(image_base_address: u64, ldr: u64, process_parameters: u64) -> PEB64 {
    PEB64 {
        inherited_address_space: 0,
        read_image_file_exec_options: 0,
        being_debugged: 0,
        bit_field: 0,
        mutant: u64::MAX,
        image_base_address,
        ldr,
        process_parameters,
    }
}

impl PEB64 {
    pub fn size() -> (r: usize)
        ensures
            r == PEB64_SIZE,
    {
        PEB64_SIZE
    }

    /// A PEB of a process that no debugger watches.
    pub fn new(image_base_address: u64, ldr: u64, process_parameters: u64) -> (r: PEB64)
        ensures
            r == peb64_value(image_base_address, ldr, process_parameters),
    {
        PEB64 {
            inherited_address_space: 0,
            read_image_file_exec_options: 0,
            being_debugged: 0,
            bit_field: 0,
            mutant: u64::MAX,
            image_base_address,
            ldr,
            process_parameters,
        }
    }

    /// Saves the PEB at the base of `mem`.
    pub fn save(&self, mem: &mut Mem64)
        requires
            old(mem)@.bytes.len() >= 0x28,
            old(mem)@.base + 0x28 <= u64::MAX,
        ensures
            final(mem)@ == save_peb(old(mem)@, *self),
    {
        let b = mem.get_base();
        mem.write_byte(b, self.inherited_address_space);
        mem.write_byte(b + 1, self.read_image_file_exec_options);
        mem.write_byte(b + 2, self.being_debugged);
        mem.write_byte(b + 3, self.bit_field);
        mem.write_qword(b + 8, self.mutant);
        mem.write_qword(b + 0x10, self.image_base_address);
        mem.write_qword(b + 0x18, self.ldr);
        mem.write_qword(b + 0x20, self.process_parameters);
    }
}

/// `LDR_DATA_TABLE_ENTRY`: one loaded module, linked into the three module
/// lists. The name fields hold the addresses of the names' characters.
#[derive(Clone, Copy)]
pub struct LdrDataTableEntry64 {
    pub in_load_order_links: ListEntry64,
    pub in_memory_order_links: ListEntry64,
    pub in_initialization_order_links: ListEntry64,
    pub dll_base: u64,
    pub entry_point: u64,
    pub size_of_image: u32,
    pub full_dll_name: u64,
    pub base_dll_name: u64,
    pub flags: u32,
    pub load_count: u16,
    pub tls_index: u16,
    pub hash_links: ListEntry64,
}

/// The memory after saving a loader entry at `addr`. The name addresses go
/// to the buffers of the two `UNICODE_STRING`s, at `0x50` and `0x60`.
pub open spec fn save_ldr_entry(m: Seq<MemView>, addr: int, e: LdrDataTableEntry64) -> Seq<MemView> {
    let m1 = save_list_entry(m, addr, e.in_load_order_links);
    let m2 = save_list_entry(m1, addr + 0x10, e.in_memory_order_links);
    let m3 = save_list_entry(m2, addr + 0x20, e.in_initialization_order_links);
    let m4 = write_u64(m3, addr + 0x30, e.dll_base);
    let m5 = write_u64(m4, addr + 0x38, e.entry_point);
    let m6 = write_u32(m5, addr + 0x40, e.size_of_image);
    let m7 = write_u64(m6, addr + 0x50, e.full_dll_name);
    let m8 = write_u64(m7, addr + 0x60, e.base_dll_name);
    let m9 = write_u32(m8, addr + 0x68, e.flags);
    let m10 = write_u16(m9, addr + 0x6c, e.load_count);
    let m11 = write_u16(m10, addr + 0x6e, e.tls_index);
    save_list_entry(m11, addr + 0x70, e.hash_links)
}

/// An entry of no module, linked nowhere.
pub open spec fn blank_ldr_entry() -> LdrDataTableEntry64 {
    LdrDataTableEntry64 {
        in_load_order_links: unlinked(),
        in_memory_order_links: unlinked(),
        in_initialization_order_links: unlinked(),
        dll_base: 0,
        entry_point: 0,
        size_of_image: 0,
        full_dll_name: 0,
        base_dll_name: 0,
        flags: 0,
        load_count: 0,
        tls_index: 0,
        hash_links: unlinked(),
    }
}

impl LdrDataTableEntry64 {
    pub fn size() -> (r: u64)
        ensures
            r == LDR_DATA_TABLE_ENTRY64_SIZE,
    {
        LDR_DATA_TABLE_ENTRY64_SIZE
    }

    /// An entry of no module, linked nowhere.
    pub fn new() -> (r: LdrDataTableEntry64)
        ensures
            r == blank_ldr_entry(),
    {
        LdrDataTableEntry64 {
            in_load_order_links: ListEntry64::new(),
            in_memory_order_links: ListEntry64::new(),
            in_initialization_order_links: ListEntry64::new(),
            dll_base: 0,
            entry_point: 0,
            size_of_image: 0,
            full_dll_name: 0,
            base_dll_name: 0,
            flags: 0,
            load_count: 0,
            tls_index: 0,
            hash_links: ListEntry64::new(),
        }
    }

    pub fn save(&self, addr: u64, maps: &mut Maps)
        requires
            addr + LDR_DATA_TABLE_ENTRY64_SIZE <= u64::MAX,
        ensures
            final(maps)@ == save_ldr_entry(old(maps)@, addr as int, *self),
    {
        self.in_load_order_links.save(addr, maps);
        self.in_memory_order_links.save(addr + 0x10, maps);
        self.in_initialization_order_links.save(addr + 0x20, maps);
        maps.write_qword(addr + 0x30, self.dll_base);
        maps.write_qword(addr + 0x38, self.entry_point);
        maps.write_dword(addr + 0x40, self.size_of_image);
        maps.write_qword(addr + 0x50, self.full_dll_name);
        maps.write_qword(addr + 0x60, self.base_dll_name);
        maps.write_dword(addr + 0x68, self.flags);
        maps.write_word(addr + 0x6c, self.load_count);
        maps.write_word(addr + 0x6e, self.tls_index);
        self.hash_links.save(addr + 0x70, maps);
    }
}

/// Where an exported function's name, ordinal and address were found.
pub struct OrdinalTable {
    pub func_name: String,
    pub ordinal_tbl_rva: u64,
    pub ordinal_tbl: u64,
    pub ordinal: u64,
    pub func_addr_tbl_rva: u64,
    pub func_addr_tbl: u64,
    pub func_rva: u64,
    pub func_va: u64,
}

/// What an ordinal table holds.
pub struct OrdinalView {
    pub func_name: Seq<char>,
    pub ordinal_tbl_rva: u64,
    pub ordinal_tbl: u64,
    pub ordinal: u64,
    pub func_addr_tbl_rva: u64,
    pub func_addr_tbl: u64,
    pub func_rva: u64,
    pub func_va: u64,
}

impl View for OrdinalTable {
    type V = OrdinalView;

    open spec fn view(&self) -> OrdinalView {
        OrdinalView {
            func_name: self.func_name@,
            ordinal_tbl_rva: self.ordinal_tbl_rva,
            ordinal_tbl: self.ordinal_tbl,
            ordinal: self.ordinal,
            func_addr_tbl_rva: self.func_addr_tbl_rva,
            func_addr_tbl: self.func_addr_tbl,
            func_rva: self.func_rva,
            func_va: self.func_va,
        }
    }
}

impl OrdinalTable {
    pub fn new() -> (r: OrdinalTable)
        ensures
            r@ == (OrdinalView {
                func_name: Seq::empty(),
                ordinal_tbl_rva: 0,
                ordinal_tbl: 0,
                ordinal: 0,
                func_addr_tbl_rva: 0,
                func_addr_tbl: 0,
                func_rva: 0,
                func_va: 0,
            }),
    {
        OrdinalTable {
            func_name: String::new(),
            ordinal_tbl_rva: 0,
            ordinal_tbl: 0,
            ordinal: 0,
            func_addr_tbl_rva: 0,
            func_addr_tbl: 0,
            func_rva: 0,
            func_va: 0,
        }
    }
}

} // verus!
