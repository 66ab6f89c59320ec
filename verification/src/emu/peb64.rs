//! The PEB and the loader's module lists of an emulated 64-bit process:
//! building them in memory, walking the load-order list, looking modules
//! up, and linking new modules in.
use crate::emu::maps::{
    byte_string_at, first_fit, lemma_first_fit_push_outside, named, read_u16, read_u32, read_u64, read_u8,
    wide_bytes, wide_string_at, write_u64, write_u8, Mem64, MemView, ALLOC64_MAX, ALLOC64_MIN,
    LIB64_MAX, LIB64_MIN,
};
use crate::emu::structures::{
    empty_peb_ldr_data, peb64_value, save_ldr_entry, save_peb, save_peb_ldr_data,
    LdrDataTableEntry64, ListEntry64, PebLdrData64, LDR_DATA_TABLE_ENTRY64_SIZE, PEB64,
    PEB64_SIZE, PEB_LDR_DATA64_SIZE,
};
use crate::emu::text::{
    ascii_lowercase, ascii_only, ends_with, lowercase, push_char, str_ends_with, str_eq, to_lowercase,
};
use crate::emu::Emu;
use crate::emu::structures::{OrdinalTable, OrdinalView};
use vstd::bytes::spec_u64_from_le_bytes;
use vstd::prelude::*;
use vstd::string::*;

verus! {

/// What a cursor on the load-order list holds.
pub struct FlinkView {
    pub flink_addr: u64,
    pub mod_base: u64,
    pub mod_name: Seq<char>,
    pub pe_hdr: u64,
    pub export_table_rva: u64,
    pub export_table: u64,
    pub num_of_funcs: u64,
    pub func_name_tbl_rva: u64,
    pub func_name_tbl: u64,
}

/// Address of the loader data, as the PEB map holds it at offset `0x18`.
pub open spec fn ldr_of(m: Seq<MemView>) -> int {
    let peb = m[named(m, "peb"@)->0];
    spec_u64_from_le_bytes(peb.slice(peb.base + 0x18, 8)) as int
}

/// Whether a cursor can be opened on the load-order list: a map named `peb`
/// holds the loader address, and the head's forward link can be read.
pub open spec fn can_open(m: Seq<MemView>) -> bool {
    &&& named(m, "peb"@) is Some
    &&& m[named(m, "peb"@)->0].base + 0x18 <= u64::MAX
    &&& m[named(m, "peb"@)->0].holds(m[named(m, "peb"@)->0].base + 0x18, 8)
    &&& ldr_of(m) + 0x10 <= u64::MAX
    &&& read_u64(m, ldr_of(m) + 0x10) is Some
}

/// The first entry of the load-order list.
pub open spec fn first_entry(m: Seq<MemView>) -> u64 {
    read_u64(m, ldr_of(m) + 0x10)->0
}

/// A cursor on entry `ptr` that has loaded nothing yet.
pub open spec fn fresh_cursor(ptr: u64) -> FlinkView {
    FlinkView {
        flink_addr: ptr,
        mod_base: 0,
        mod_name: Seq::empty(),
        pe_hdr: 0,
        export_table_rva: 0,
        export_table: 0,
        num_of_funcs: 0,
        func_name_tbl_rva: 0,
        func_name_tbl: 0,
    }
}

/// Base address of the module of the entry at `ptr` (`DllBase`, at `0x30`).
pub open spec fn entry_base(m: Seq<MemView>, ptr: int) -> u64 {
    read_u64(m, ptr + 0x30)->0
}

/// Name of the module of the entry at `ptr`: the UTF-16 string at the
/// address held at `0x50`.
pub open spec fn entry_name(m: Seq<MemView>, ptr: int) -> Seq<char> {
    wide_string_at(m, read_u64(m, ptr + 0x50)->0 as int)
}

/// Offset of the PE header of a module whose image starts at `base`: the
/// double word at `0x3c`, or `0` where it cannot be read.
pub open spec fn pe_header_offset(m: Seq<MemView>, base: int) -> u64 {
    match read_u32(m, base + 0x3c) {
        Some(h) => h as u64,
        None => 0,
    }
}

/// The export-table fields of a cursor once read from memory; unchanged when
/// the module has no PE header, only the address cleared when it has no
/// export table.
pub open spec fn with_export_table(f: FlinkView, m: Seq<MemView>) -> FlinkView {
    if f.pe_hdr == 0 {
        f
    } else {
        let rva: u64 = match read_u32(m, f.mod_base + f.pe_hdr + 0x88) {
            Some(r) => r as u64,
            None => 0,
        };
        if rva == 0 {
            FlinkView { export_table_rva: 0, ..f }
        } else {
            let table = (rva + f.mod_base) as u64;
            let names_rva = read_u32(m, table + 0x20)->0 as u64;
            FlinkView {
                export_table_rva: rva,
                export_table: table,
                num_of_funcs: read_u32(m, table + 0x18)->0 as u64,
                func_name_tbl_rva: names_rva,
                func_name_tbl: (names_rva + f.mod_base) as u64,
                ..f
            }
        }
    }
}

/// Whether reading the export-table fields neither overflows nor reads
/// where no map is.
pub open spec fn export_table_readable(f: FlinkView, m: Seq<MemView>) -> bool {
    f.pe_hdr != 0 ==> {
        &&& f.mod_base + f.pe_hdr + 0x88 <= u64::MAX
        &&& {
            let rva: u64 = match read_u32(m, f.mod_base + f.pe_hdr + 0x88) {
                Some(r) => r as u64,
                None => 0,
            };
            rva != 0 ==> {
                let table = rva + f.mod_base;
                &&& table + 0x20 <= u64::MAX
                &&& read_u32(m, table + 0x18) is Some
                &&& read_u32(m, table + 0x20) is Some
                &&& read_u32(m, table + 0x20)->0 + f.mod_base <= u64::MAX
            }
        }
    }
}

/// The cursor after loading the entry it points at: base, name, PE header
/// offset and export table.
pub open spec fn loaded(f: FlinkView, m: Seq<MemView>) -> FlinkView {
    let ptr = f.flink_addr as int;
    let base = entry_base(m, ptr);
    let with_pe = FlinkView {
        mod_base: base,
        mod_name: entry_name(m, ptr),
        pe_hdr: pe_header_offset(m, base as int),
        ..f
    };
    with_export_table(with_pe, m)
}

/// Whether the entry at `ptr` can be loaded: every read succeeds and no
/// address computation overflows.
pub open spec fn entry_loadable(m: Seq<MemView>, ptr: int) -> bool {
    let base = entry_base(m, ptr);
    &&& ptr + 0x50 <= u64::MAX
    &&& read_u64(m, ptr + 0x30) is Some
    &&& read_u64(m, ptr + 0x50) is Some
    &&& base + 0x3c <= u64::MAX
    &&& export_table_readable(
        FlinkView { mod_base: base, pe_hdr: pe_header_offset(m, base as int), ..fresh_cursor(0) },
        m,
    )
}

/// The entry for function `id` of a module's export table: its name (a byte
/// string), its ordinal, and its address.
pub open spec fn ordinal_at(f: FlinkView, m: Seq<MemView>, id: u64) -> OrdinalView {
    let name_rva = read_u32(m, f.func_name_tbl + id * 4)->0 as u64;
    let ordinal_tbl_rva = read_u32(m, f.export_table + 0x24)->0 as u64;
    let ordinal_tbl = (ordinal_tbl_rva + f.mod_base) as u64;
    let ordinal = read_u16(m, ordinal_tbl + 2 * id)->0 as u64;
    let func_addr_tbl_rva = read_u32(m, f.export_table + 0x1c)->0 as u64;
    let func_addr_tbl = (func_addr_tbl_rva + f.mod_base) as u64;
    let func_rva = read_u32(m, func_addr_tbl + 4 * ordinal)->0 as u64;
    OrdinalView {
        func_name: byte_string_at(m, name_rva + f.mod_base),
        ordinal_tbl_rva,
        ordinal_tbl,
        ordinal,
        func_addr_tbl_rva,
        func_addr_tbl,
        func_rva,
        func_va: (func_rva + f.mod_base) as u64,
    }
}

/// Whether looking function `id` up neither overflows nor reads where no
/// map is.
pub open spec fn ordinal_readable(f: FlinkView, m: Seq<MemView>, id: u64) -> bool {
    let name_rva = read_u32(m, f.func_name_tbl + id * 4)->0 as u64;
    let ordinal_tbl_rva = read_u32(m, f.export_table + 0x24)->0 as u64;
    let ordinal_tbl = ordinal_tbl_rva + f.mod_base;
    let ordinal = read_u16(m, ordinal_tbl + 2 * id)->0 as u64;
    let func_addr_tbl_rva = read_u32(m, f.export_table + 0x1c)->0 as u64;
    let func_addr_tbl = func_addr_tbl_rva + f.mod_base;
    let func_rva = read_u32(m, func_addr_tbl + 4 * ordinal)->0 as u64;
    &&& f.func_name_tbl + id * 4 <= u64::MAX
    &&& read_u32(m, f.func_name_tbl + id * 4) is Some
    &&& name_rva + f.mod_base <= u64::MAX
    &&& f.export_table + 0x24 <= u64::MAX
    &&& read_u32(m, f.export_table + 0x24) is Some
    &&& ordinal_tbl + 2 * id <= u64::MAX
    &&& read_u16(m, ordinal_tbl + 2 * id) is Some
    &&& read_u32(m, f.export_table + 0x1c) is Some
    &&& func_addr_tbl + 4 * ordinal <= u64::MAX
    &&& read_u32(m, func_addr_tbl + 4 * ordinal) is Some
    &&& func_rva + f.mod_base <= u64::MAX
}

/// The PE header offset of a module is the whole double word at `0x3c` of
/// its image (`e_lfanew`), or `0` where that cannot be read.
pub proof fn lemma_pe_header_offset_reads(m: Seq<MemView>, base: int)
    ensures
        read_u32(m, base + 0x3c) is None ==> pe_header_offset(m, base) == 0,
        forall|h: u32| read_u32(m, base + 0x3c) == Some(h) ==> pe_header_offset(m, base) == h as u64,
{
}

/// Looking function `id` up reads, in the module's export table, the
/// `id`-th name address (a double word at `AddressOfNames + 4 * id`), the
/// `id`-th ordinal (a word at `AddressOfNameOrdinals + 2 * id`), and the
/// function address of that ordinal (a double word at
/// `AddressOfFunctions + 4 * ordinal`); the tables and the function lie at
/// their addresses relative to the module base.
pub proof fn lemma_ordinal_reads(f: FlinkView, m: Seq<MemView>, id: u64)
    requires
        ordinal_readable(f, m, id),
    ensures
        ({
            let o = ordinal_at(f, m, id);
            &&& read_u32(m, f.export_table + 0x24) == Some(o.ordinal_tbl_rva as u32)
            &&& o.ordinal_tbl_rva < 0x1_0000_0000
            &&& o.ordinal_tbl == o.ordinal_tbl_rva + f.mod_base
            &&& read_u16(m, o.ordinal_tbl + 2 * id) == Some(o.ordinal as u16)
            &&& o.ordinal < 0x1_0000
            &&& read_u32(m, f.export_table + 0x1c) == Some(o.func_addr_tbl_rva as u32)
            &&& o.func_addr_tbl_rva < 0x1_0000_0000
            &&& o.func_addr_tbl == o.func_addr_tbl_rva + f.mod_base
            &&& read_u32(m, o.func_addr_tbl + 4 * o.ordinal) == Some(o.func_rva as u32)
            &&& o.func_rva < 0x1_0000_0000
            &&& o.func_va == o.func_rva + f.mod_base
            &&& read_u32(m, f.func_name_tbl + 4 * id) is Some
            &&& o.func_name == byte_string_at(
                m,
                read_u32(m, f.func_name_tbl + 4 * id)->0 + f.mod_base,
            )
        }),
{
}

/// What is shown of an entry is read from memory: its forward link (at the
/// entry), its backward link (at `+8`), its module base (at `+0x30`), its
/// name (at the address held at `+0x50`), the PE header offset (the double
/// word at base `+0x3c`), and the two bytes at the PE header (`pe1` at base
/// `+` offset, `pe2` right after), each byte `0` where unmapped.
pub proof fn lemma_linked_module_reads(m: Seq<MemView>, ptr: u64)
    requires
        read_u64(m, ptr as int) is Some,
        read_u64(m, ptr + 8) is Some,
        read_u64(m, ptr + 0x30) is Some,
    ensures
        ({
            let l = linked_module_at(m, ptr);
            &&& l.ptr == ptr
            &&& read_u64(m, ptr as int) == Some(l.flink)
            &&& read_u64(m, ptr + 8) == Some(l.blink)
            &&& read_u64(m, ptr + 0x30) == Some(l.base)
            &&& l.name == wide_string_at(m, read_u64(m, ptr + 0x50)->0 as int)
            &&& (read_u32(m, l.base + 0x3c) is None ==> l.pe_hdr == 0)
            &&& (read_u32(m, l.base + 0x3c) is Some ==> l.pe_hdr == read_u32(m, l.base + 0x3c)->0 as u64)
            &&& (read_u8(m, l.base + l.pe_hdr) is None ==> l.pe1 == 0)
            &&& (read_u8(m, l.base + l.pe_hdr) is Some ==> l.pe1 == read_u8(m, l.base + l.pe_hdr)->0)
            &&& (read_u8(m, l.base + l.pe_hdr + 1) is None ==> l.pe2 == 0)
            &&& (read_u8(m, l.base + l.pe_hdr + 1) is Some ==> l.pe2 == read_u8(
                m,
                l.base + l.pe_hdr + 1,
            )->0)
        }),
{
}

/// A call on a cursor that does not move it: every method but `set_ptr` and
/// `next` (and `new`, which makes one).
pub enum CursorCall {
    Load,
    GetModBase,
    GetModName,
    GetPeHdr,
    GetExportTable,
    SetModBase(u64),
}

/// The cursor and the memory after a call that does not move the cursor, as
/// each method's contract states them.
pub open spec fn cursor_call(f: FlinkView, m: Seq<MemView>, c: CursorCall) -> (FlinkView, Seq<MemView>) {
    match c {
        CursorCall::Load => (loaded(f, m), m),
        CursorCall::GetModBase => (FlinkView { mod_base: entry_base(m, f.flink_addr as int), ..f }, m),
        CursorCall::GetModName => (FlinkView { mod_name: entry_name(m, f.flink_addr as int), ..f }, m),
        CursorCall::GetPeHdr => (FlinkView { pe_hdr: pe_header_offset(m, f.mod_base as int), ..f }, m),
        CursorCall::GetExportTable => (with_export_table(f, m), m),
        CursorCall::SetModBase(b) => (
            FlinkView { mod_base: b, ..f },
            write_u64(m, f.flink_addr + 0x30, b),
        ),
    }
}

/// The cursor and the memory after a sequence of such calls, in order.
pub open spec fn cursor_calls(f: FlinkView, m: Seq<MemView>, cs: Seq<CursorCall>) -> (FlinkView, Seq<MemView>)
    decreases cs.len(),
{
    if cs.len() == 0 {
        (f, m)
    } else {
        let (f1, m1) = cursor_call(f, m, cs[0]);
        cursor_calls(f1, m1, cs.drop_first())
    }
}

/// The address a cursor points at changes only by `set_ptr` and `next`:
/// after any sequence of the other calls, it is what it was.
pub proof fn lemma_cursor_address_kept(f: FlinkView, m: Seq<MemView>, cs: Seq<CursorCall>)
    ensures
        cursor_calls(f, m, cs).0.flink_addr == f.flink_addr,
    decreases cs.len(),
{
    if cs.len() > 0 {
        let (f1, m1) = cursor_call(f, m, cs[0]);
        assert(f1.flink_addr == f.flink_addr);
        lemma_cursor_address_kept(f1, m1, cs.drop_first());
    }
}

/// Calls other than `set_mod_base` leave the memory and the cursor's address
/// as they were.
pub proof fn lemma_reading_calls_keep_memory(f: FlinkView, m: Seq<MemView>, cs: Seq<CursorCall>)
    requires
        forall|i: int| 0 <= i < cs.len() ==> !(#[trigger] cs[i] is SetModBase),
    ensures
        cursor_calls(f, m, cs).1 == m,
        cursor_calls(f, m, cs).0.flink_addr == f.flink_addr,
    decreases cs.len(),
{
    if cs.len() > 0 {
        let (f1, m1) = cursor_call(f, m, cs[0]);
        assert(!(cs[0] is SetModBase));
        assert forall|i: int| 0 <= i < cs.drop_first().len() implies !(
        #[trigger] cs.drop_first()[i] is SetModBase) by {
            assert(cs.drop_first()[i] == cs[i + 1]);
        }
        lemma_reading_calls_keep_memory(f1, m1, cs.drop_first());
    }
}

/// A base set with `set_mod_base` is what `get_mod_base` reads back after
/// any calls that do not write memory or move the cursor, where the entry's
/// base lies in mapped memory.
pub proof fn lemma_set_base_reads_back_later(f: FlinkView, m: Seq<MemView>, b: u64, cs: Seq<CursorCall>)
    requires
        crate::emu::maps::writable(m, f.flink_addr + 0x30, 8),
        forall|i: int| 0 <= i < cs.len() ==> !(#[trigger] cs[i] is SetModBase),
    ensures
        ({
            let (f1, m1) = cursor_call(f, m, CursorCall::SetModBase(b));
            let (f2, m2) = cursor_calls(f1, m1, cs);
            cursor_call(f2, m2, CursorCall::GetModBase).0.mod_base == b
        }),
{
    let (f1, m1) = cursor_call(f, m, CursorCall::SetModBase(b));
    lemma_reading_calls_keep_memory(f1, m1, cs);
    crate::emu::maps::lemma_u64_read_after_write(m, f.flink_addr + 0x30, b);
}

/// A cursor on the load-order list of the loader's entries.
#[derive(Debug)]
pub struct Flink {
    pub flink_addr: u64,
    pub mod_base: u64,
    pub mod_name: String,
    pub pe_hdr: u64,
    pub export_table_rva: u64,
    pub export_table: u64,
    pub num_of_funcs: u64,
    pub func_name_tbl_rva: u64,
    pub func_name_tbl: u64,
}

impl View for Flink {
    type V = FlinkView;

    open spec fn view(&self) -> FlinkView {
        FlinkView {
            flink_addr: self.flink_addr,
            mod_base: self.mod_base,
            mod_name: self.mod_name@,
            pe_hdr: self.pe_hdr,
            export_table_rva: self.export_table_rva,
            export_table: self.export_table,
            num_of_funcs: self.num_of_funcs,
            func_name_tbl_rva: self.func_name_tbl_rva,
            func_name_tbl: self.func_name_tbl,
        }
    }
}

impl Flink {
    /// A cursor on the first entry of the load-order list, nothing loaded.
    pub fn new(emu: &mut Emu) -> (r: Flink)
        requires
            can_open(old(emu).maps@),
        ensures
            r@ == fresh_cursor(first_entry(old(emu).maps@)),
            *final(emu) == *old(emu),
    {
        let peb = emu.maps.get_mem("peb");
        let peb_base = peb.get_base();
        let ldr = peb.read_qword(peb_base + 0x18);
        let flink = match emu.maps.read_qword(ldr + 0x10) {
            Some(v) => v,
            None => {
                proof {
                    assert(false);
                }
                0
            },
        };
        let r = Flink {
            flink_addr: flink,
            mod_base: 0,
            mod_name: String::new(),
            pe_hdr: 0,
            export_table_rva: 0,
            export_table: 0,
            num_of_funcs: 0,
            func_name_tbl_rva: 0,
            func_name_tbl: 0,
        };
        assert(r@ =~= fresh_cursor(first_entry(emu.maps@)));
        r
    }

    /// Address of the entry the cursor points at.
    pub fn get_ptr(&self) -> (r: u64)
        ensures
            r == self@.flink_addr,
    {
        self.flink_addr
    }

    pub fn set_ptr(&mut self, addr: u64)
        ensures
            final(self)@ == (FlinkView { flink_addr: addr, ..old(self)@ }),
    {
        self.flink_addr = addr;
    }

    /// Reads the entry the cursor points at: base, name, PE header offset and
    /// export table.
    pub fn load(&mut self, emu: &mut Emu)
        requires
            entry_loadable(old(emu).maps@, old(self)@.flink_addr as int),
        ensures
            final(self)@ == loaded(old(self)@, old(emu).maps@),
            *final(emu) == *old(emu),
            (final(self)@, final(emu).maps@) == cursor_call(old(self)@, old(emu).maps@, CursorCall::Load),
    {
        self.get_mod_base(emu);
        self.get_mod_name(emu);
        self.get_pe_hdr(emu);
        self.get_export_table(emu);
    }

    pub fn get_mod_base(&mut self, emu: &mut Emu)
        requires
            old(self)@.flink_addr + 0x30 <= u64::MAX,
            read_u64(old(emu).maps@, old(self)@.flink_addr + 0x30) is Some,
        ensures
            final(self)@ == (FlinkView {
                mod_base: entry_base(old(emu).maps@, old(self)@.flink_addr as int),
                ..old(self)@
            }),
            *final(emu) == *old(emu),
            (final(self)@, final(emu).maps@) == cursor_call(old(self)@, old(emu).maps@, CursorCall::GetModBase),
    {
        self.mod_base = match emu.maps.read_qword(self.flink_addr + 0x30) {
            Some(v) => v,
            None => {
                proof {
                    assert(false);
                }
                0
            },
        };
    }

    /// Sets the module base, in the cursor and in the entry (`DllBase`).
    pub fn set_mod_base(&mut self, base: u64, emu: &mut Emu)
        requires
            old(self)@.flink_addr + 0x30 <= u64::MAX,
        ensures
            final(self)@ == (FlinkView { mod_base: base, ..old(self)@ }),
            final(emu).maps@ == write_u64(old(emu).maps@, old(self)@.flink_addr + 0x30, base),
            final(emu).regs == old(emu).regs,
            (final(self)@, final(emu).maps@) == cursor_call(old(self)@, old(emu).maps@, CursorCall::SetModBase(base)),
    {
        self.mod_base = base;
        emu.maps.write_qword(self.flink_addr + 0x30, base);
    }

    pub fn get_mod_name(&mut self, emu: &mut Emu)
        requires
            old(self)@.flink_addr + 0x50 <= u64::MAX,
            read_u64(old(emu).maps@, old(self)@.flink_addr + 0x50) is Some,
        ensures
            final(self)@ == (FlinkView {
                mod_name: entry_name(old(emu).maps@, old(self)@.flink_addr as int),
                ..old(self)@
            }),
            *final(emu) == *old(emu),
            (final(self)@, final(emu).maps@) == cursor_call(old(self)@, old(emu).maps@, CursorCall::GetModName),
    {
        let mod_name_ptr = match emu.maps.read_qword(self.flink_addr + 0x50) {
            Some(v) => v,
            None => {
                proof {
                    assert(false);
                }
                0
            },
        };
        self.mod_name = emu.maps.read_wide_string(mod_name_ptr);
    }

    /// Whether the cursor points at an entry of a loaded module.
    pub fn has_module(&self) -> (r: bool)
        ensures
            r == (self@.mod_base != 0 && self@.flink_addr != 0),
    {
        if self.mod_base == 0 || self.flink_addr == 0 {
            return false;
        }
        return true;
    }

    pub fn get_pe_hdr(&mut self, emu: &mut Emu)
        requires
            old(self)@.mod_base + 0x3c <= u64::MAX,
        ensures
            final(self)@ == (FlinkView {
                pe_hdr: pe_header_offset(old(emu).maps@, old(self)@.mod_base as int),
                ..old(self)@
            }),
            *final(emu) == *old(emu),
            (final(self)@, final(emu).maps@) == cursor_call(old(self)@, old(emu).maps@, CursorCall::GetPeHdr),
            read_u32(old(emu).maps@, old(self)@.mod_base + 0x3c) is None ==> final(self)@.pe_hdr == 0,
            read_u32(old(emu).maps@, old(self)@.mod_base + 0x3c) is Some ==> final(self)@.pe_hdr == read_u32(
                old(emu).maps@,
                old(self)@.mod_base + 0x3c,
            )->0 as u64,
    {
        self.pe_hdr = match emu.maps.read_dword(self.mod_base + 0x3c) {
            Some(hdr) => hdr as u64,
            None => 0,
        };
    }

    pub fn get_export_table(&mut self, emu: &mut Emu)
        requires
            export_table_readable(old(self)@, old(emu).maps@),
        ensures
            final(self)@ == with_export_table(old(self)@, old(emu).maps@),
            *final(emu) == *old(emu),
            (final(self)@, final(emu).maps@) == cursor_call(old(self)@, old(emu).maps@, CursorCall::GetExportTable),
    {
        if self.pe_hdr == 0 {
            return;
        }
        self.export_table_rva = match emu.maps.read_dword(self.mod_base + self.pe_hdr + 0x88) {
            Some(rva) => rva as u64,
            None => 0,
        };
        if self.export_table_rva == 0 {
            return;
        }
        self.export_table = self.export_table_rva + self.mod_base;
        self.num_of_funcs = match emu.maps.read_dword(self.export_table + 0x18) {
            Some(v) => v as u64,
            None => {
                proof {
                    assert(false);
                }
                0
            },
        };
        self.func_name_tbl_rva = match emu.maps.read_dword(self.export_table + 0x20) {
            Some(v) => v as u64,
            None => {
                proof {
                    assert(false);
                }
                0
            },
        };
        self.func_name_tbl = self.func_name_tbl_rva + self.mod_base;
    }

    /// Looks function `id` up in the module's export table.
    pub fn get_function_ordinal(&self, emu: &mut Emu, function_id: u64) -> (r: OrdinalTable)
        requires
            ordinal_readable(self@, old(emu).maps@, function_id),
        ensures
            r@ == ordinal_at(self@, old(emu).maps@, function_id),
            read_u16(old(emu).maps@, r@.ordinal_tbl + 2 * function_id) == Some(r@.ordinal as u16),
            read_u32(old(emu).maps@, r@.func_addr_tbl + 4 * r@.ordinal) == Some(r@.func_rva as u32),
            r@.func_va == r@.func_rva + self@.mod_base,
            *final(emu) == *old(emu),
    {
        proof {
            lemma_ordinal_reads(self@, emu.maps@, function_id);
        }
        let mut ordinal = OrdinalTable::new();
        let func_name_rva = match emu.maps.read_dword(self.func_name_tbl + function_id * 4) {
            Some(v) => v as u64,
            None => {
                proof {
                    assert(false);
                }
                0
            },
        };
        ordinal.func_name = emu.maps.read_string(func_name_rva + self.mod_base);
        ordinal.ordinal_tbl_rva = match emu.maps.read_dword(self.export_table + 0x24) {
            Some(v) => v as u64,
            None => {
                proof {
                    assert(false);
                }
                0
            },
        };
        ordinal.ordinal_tbl = ordinal.ordinal_tbl_rva + self.mod_base;
        ordinal.ordinal = match emu.maps.read_word(ordinal.ordinal_tbl + 2 * function_id) {
            Some(v) => v as u64,
            None => {
                proof {
                    assert(false);
                }
                0
            },
        };
        ordinal.func_addr_tbl_rva = match emu.maps.read_dword(self.export_table + 0x1c) {
            Some(v) => v as u64,
            None => {
                proof {
                    assert(false);
                }
                0
            },
        };
        ordinal.func_addr_tbl = ordinal.func_addr_tbl_rva + self.mod_base;
        ordinal.func_rva = match emu.maps.read_dword(ordinal.func_addr_tbl + 4 * ordinal.ordinal) {
            Some(v) => v as u64,
            None => {
                proof {
                    assert(false);
                }
                0
            },
        };
        ordinal.func_va = ordinal.func_rva + self.mod_base;
        ordinal
    }

    /// Address of the next entry in load order (`Flink`, at `0`).
    pub fn get_next_flink(&self, emu: &mut Emu) -> (r: u64)
        requires
            read_u64(old(emu).maps@, self@.flink_addr as int) is Some,
        ensures
            r == read_u64(old(emu).maps@, self@.flink_addr as int)->0,
            *final(emu) == *old(emu),
    {
        match emu.maps.read_qword(self.flink_addr) {
            Some(v) => v,
            None => {
                proof {
                    assert(false);
                }
                0
            },
        }
    }

    /// Address of the previous entry in load order (`Blink`, at `8`).
    pub fn get_prev_flink(&self, emu: &mut Emu) -> (r: u64)
        requires
            self@.flink_addr + 8 <= u64::MAX,
            read_u64(old(emu).maps@, self@.flink_addr + 8) is Some,
        ensures
            r == read_u64(old(emu).maps@, self@.flink_addr + 8)->0,
            *final(emu) == *old(emu),
    {
        match emu.maps.read_qword(self.flink_addr + 8) {
            Some(v) => v,
            None => {
                proof {
                    assert(false);
                }
                0
            },
        }
    }

    /// Moves the cursor to the next entry in load order and loads it.
    pub fn next(&mut self, emu: &mut Emu)
        requires
            read_u64(old(emu).maps@, old(self)@.flink_addr as int) is Some,
            entry_loadable(old(emu).maps@, read_u64(old(emu).maps@, old(self)@.flink_addr as int)->0 as int),
        ensures
            final(self)@ == loaded(
                FlinkView {
                    flink_addr: read_u64(old(emu).maps@, old(self)@.flink_addr as int)->0,
                    ..old(self)@
                },
                old(emu).maps@,
            ),
            *final(emu) == *old(emu),
    {
        self.flink_addr = self.get_next_flink(emu);
        self.load(emu);
    }
}

/// The entry reached from `start` by following `k` forward links.
pub open spec fn entry_after(m: Seq<MemView>, start: u64, k: nat) -> Option<u64>
    decreases k,
{
    if k == 0 {
        Some(start)
    } else {
        match entry_after(m, start, (k - 1) as nat) {
            Some(p) => read_u64(m, p as int),
            None => None,
        }
    }
}

/// Whether following forward links from `start` first comes back to it
/// after `n` links, every entry on the way being loadable.
pub open spec fn ring_of_length(m: Seq<MemView>, start: u64, n: nat) -> bool {
    &&& n >= 1
    &&& entry_after(m, start, n) == Some(start)
    &&& forall|k: nat| 1 <= k < n ==> entry_after(m, start, k) != Some(start)
    &&& forall|k: nat| k < n ==> entry_loadable(m, (#[trigger] entry_after(m, start, k))->0 as int)
}

/// Whether the load-order list can be walked: a cursor opens on it and the
/// forward links lead back to the first entry.
pub open spec fn list_walkable(m: Seq<MemView>) -> bool {
    &&& can_open(m)
    &&& exists|n: nat| ring_of_length(m, first_entry(m), n)
}

/// Number of entries in the load-order list.
pub open spec fn list_length(m: Seq<MemView>) -> nat {
    choose|n: nat| ring_of_length(m, first_entry(m), n)
}

/// A name with `.dll` added where it does not end so.
pub open spec fn with_dll(name: Seq<char>) -> Seq<char> {
    if ends_with(name, ".dll"@) {
        name
    } else {
        name + ".dll"@
    }
}

/// `name` with `.dll` added where it does not end so.
pub fn dll_name_of(name: &str) -> (r: String)
    ensures
        r@ == with_dll(name@),
{
    let mut r = String::from_str(name);
    if !str_ends_with(name, ".dll") {
        r.append(".dll");
    }
    r
}

/// Whether a module of the given name answers a lookup by the lower-cased
/// name `lower`: its lower-cased name is `lower`, or `lower` with `.dll`.
pub open spec fn name_answers(lower: Seq<char>, name: Seq<char>) -> bool {
    lower == lowercase(name) || with_dll(lower) == lowercase(name)
}

/// Whether a module of the given name answers a lookup of `libname`: the
/// names are equal once lower-cased, with or without `.dll`.
pub open spec fn module_matches(libname: Seq<char>, name: Seq<char>) -> bool {
    name_answers(lowercase(libname), name)
}

/// Whether a lookup by the lower-cased name `lower` walking from `start`
/// visits exactly `n` entries: each can be loaded, the walk does not come
/// back to `start` before, no entry before the last answers the lookup, and
/// the walk stops at the last because it answers or because its forward
/// link leads back to `start`.
pub open spec fn lookup_walk(m: Seq<MemView>, start: u64, lower: Seq<char>, n: nat) -> bool {
    &&& n >= 1
    &&& forall|k: nat|
        k < n ==> (#[trigger] entry_after(m, start, k)) is Some && entry_loadable(
            m,
            entry_after(m, start, k)->0 as int,
        )
    &&& forall|k: nat| 1 <= k < n ==> #[trigger] entry_after(m, start, k) != Some(start)
    &&& forall|k: nat|
        k + 1 < n ==> !name_answers(lower, entry_name(m, (#[trigger] entry_after(m, start, k))->0 as int))
    &&& (name_answers(lower, entry_name(m, entry_after(m, start, (n - 1) as nat)->0 as int))
        || entry_after(m, start, n) == Some(start))
}

/// Whether a lookup by the lower-cased name `lower` ends: a cursor opens on
/// the list and the walk stops at an answering entry or back at the first.
pub open spec fn lookup_ends_lowered(m: Seq<MemView>, lower: Seq<char>) -> bool {
    &&& can_open(m)
    &&& exists|n: nat| lookup_walk(m, first_entry(m), lower, n)
}

/// Whether a lookup of `libname` in the load-order list ends.
pub open spec fn lookup_ends(m: Seq<MemView>, libname: Seq<char>) -> bool {
    lookup_ends_lowered(m, lowercase(libname))
}

/// Number of entries a lookup by the lower-cased name `lower` visits.
pub open spec fn lookup_length(m: Seq<MemView>, lower: Seq<char>) -> nat {
    choose|n: nat| lookup_walk(m, first_entry(m), lower, n)
}

/// Base of the first module in load order that answers a lookup by the
/// lower-cased name `lower`, or `None` where the walk came back to the
/// first entry.
pub open spec fn found_module(m: Seq<MemView>, lower: Seq<char>) -> Option<u64> {
    let last = entry_after(m, first_entry(m), (lookup_length(m, lower) - 1) as nat)->0 as int;
    if name_answers(lower, entry_name(m, last)) {
        Some(entry_base(m, last))
    } else {
        None
    }
}

/// Base of the first module in load order that answers a lookup of
/// `libname`, or `None` where the walk came back to the first entry.
pub open spec fn find_module(m: Seq<MemView>, libname: Seq<char>) -> Option<u64> {
    found_module(m, lowercase(libname))
}

/// A lookup visits a fixed number of entries.
pub proof fn lemma_lookup_walk_unique(m: Seq<MemView>, start: u64, lower: Seq<char>, n1: nat, n2: nat)
    requires
        lookup_walk(m, start, lower, n1),
        lookup_walk(m, start, lower, n2),
    ensures
        n1 == n2,
{
    if n1 < n2 {
        let k = (n1 - 1) as nat;
        assert(k + 1 < n2);
        assert(!name_answers(lower, entry_name(m, entry_after(m, start, k)->0 as int)));
        assert(1 <= n1 < n2);
        assert(entry_after(m, start, n1) != Some(start));
    } else if n2 < n1 {
        let k = (n2 - 1) as nat;
        assert(k + 1 < n1);
        assert(!name_answers(lower, entry_name(m, entry_after(m, start, k)->0 as int)));
        assert(1 <= n2 < n1);
        assert(entry_after(m, start, n2) != Some(start));
    }
}

pub proof fn lemma_entry_after_prefix(m: Seq<MemView>, start: u64, k: nat, n: nat)
    requires
        k <= n,
        entry_after(m, start, n) is Some,
    ensures
        entry_after(m, start, k) is Some,
    decreases n - k,
{
    if k < n {
        lemma_entry_after_prefix(m, start, (k + 1) as nat, n);
    }
}

/// A walk that does not come back to the start before its end is no longer
/// than the ring.
pub proof fn lemma_walk_within_ring(m: Seq<MemView>, start: u64, lower: Seq<char>, l: nat, n: nat)
    requires
        lookup_walk(m, start, lower, l),
        ring_of_length(m, start, n),
    ensures
        l <= n,
{
    if l > n {
        assert(1 <= n < l);
        assert(entry_after(m, start, n) != Some(start));
    }
}

proof fn lemma_lookup_ends_from(m: Seq<MemView>, start: u64, lower: Seq<char>, n: nat, j: nat)
    requires
        ring_of_length(m, start, n),
        j <= n,
        forall|k: nat|
            k < j ==> !name_answers(lower, entry_name(m, (#[trigger] entry_after(m, start, k))->0 as int)),
    ensures
        exists|l: nat| lookup_walk(m, start, lower, l),
    decreases n - j,
{
    assert forall|k: nat| k < n implies (#[trigger] entry_after(m, start, k)) is Some by {
        lemma_entry_after_prefix(m, start, k, n);
    }
    if j == n {
        assert(lookup_walk(m, start, lower, n));
    } else if name_answers(lower, entry_name(m, entry_after(m, start, j)->0 as int)) {
        assert(lookup_walk(m, start, lower, j + 1));
    } else {
        lemma_lookup_ends_from(m, start, lower, n, j + 1);
    }
}

/// A lookup in a load-order list that can be walked ends, and visits at
/// most the entries of the list.
pub proof fn lemma_walkable_list_lookup_ends_lowered(m: Seq<MemView>, lower: Seq<char>)
    requires
        list_walkable(m),
    ensures
        lookup_ends_lowered(m, lower),
        lookup_length(m, lower) <= list_length(m),
{
    let n = list_length(m);
    lemma_lookup_ends_from(m, first_entry(m), lower, n, 0);
    lemma_walk_within_ring(m, first_entry(m), lower, lookup_length(m, lower), n);
}

/// A lookup in a load-order list that can be walked ends, and visits at
/// most the entries of the list.
pub proof fn lemma_walkable_list_lookup_ends(m: Seq<MemView>, libname: Seq<char>)
    requires
        list_walkable(m),
    ensures
        lookup_ends(m, libname),
        lookup_length(m, lowercase(libname)) <= list_length(m),
{
    lemma_walkable_list_lookup_ends_lowered(m, lowercase(libname));
}

/// Base address of the module loaded under `libname`, looked up in load
/// order with the case ignored and `.dll` optional. For an all-ASCII name,
/// the lookup goes by the name with `A`-`Z` made `a`-`z`.
pub fn get_module_base(libname: &str, emu: &mut Emu) -> (r: Option<u64>)
    requires
        lookup_ends(old(emu).maps@, libname@),
    ensures
        r == find_module(old(emu).maps@, libname@),
        ascii_only(libname@) ==> r == found_module(old(emu).maps@, ascii_lowercase(libname@)),
        *final(emu) == *old(emu),
{
    let ghost m = emu.maps@;
    let lower = to_lowercase(libname);
    let libname2 = dll_name_of(lower.as_str());
    let mut flink = Flink::new(emu);
    let ghost first = first_entry(m);
    let ghost low = lowercase(libname@);
    let ghost n = lookup_length(m, low);
    proof {
        assert(lookup_walk(m, first, low, n));
        assert(entry_after(m, first, 0) is Some);
    }
    flink.load(emu);
    let first_flink = flink.get_ptr();
    let ghost mut k: nat = 0;
    loop
        invariant
            emu.maps@ == m,
            *emu == *old(emu),
            first == first_entry(m),
            first_flink == first,
            low == lowercase(libname@),
            n == lookup_length(m, low),
            lookup_walk(m, first, low, n),
            k < n,
            entry_after(m, first, k) is Some,
            flink@.flink_addr == entry_after(m, first, k)->0,
            flink@.mod_base == entry_base(m, flink@.flink_addr as int),
            flink@.mod_name == entry_name(m, flink@.flink_addr as int),
            lower@ == low,
            ascii_only(libname@) ==> low == ascii_lowercase(libname@),
            libname2@ == with_dll(low),
        decreases n - k,
    {
        let lname = to_lowercase(flink.mod_name.as_str());
        if lower == lname || libname2 == lname {
            proof {
                if k + 1 < n {
                    assert(!name_answers(low, entry_name(m, entry_after(m, first, k)->0 as int)));
                }
            }
            return Some(flink.mod_base);
        }
        proof {
            if k + 1 < n {
                assert(entry_after(m, first, k + 1) is Some);
                assert(entry_loadable(m, entry_after(m, first, k + 1)->0 as int));
            } else {
                assert(entry_after(m, first, n) == Some(first));
                assert(entry_after(m, first, 0) is Some);
                assert(entry_loadable(m, entry_after(m, first, 0)->0 as int));
            }
        }
        flink.next(emu);
        if flink.get_ptr() == first_flink {
            proof {
                if k + 1 < n {
                    assert(entry_after(m, first, k + 1) != Some(first));
                }
            }
            return None;
        }
        proof {
            k = k + 1;
        }
    }
}

/// Whether entry `k` after `start` is the first whose name equals `libname`
/// once both are lower-cased, every entry up to it being loadable.
pub open spec fn first_named_entry(m: Seq<MemView>, start: u64, libname: Seq<char>, k: nat) -> bool {
    &&& entry_after(m, start, k) is Some
    &&& lowercase(entry_name(m, entry_after(m, start, k)->0 as int)) == lowercase(libname)
    &&& forall|j: nat|
        j < k ==> lowercase(entry_name(m, (#[trigger] entry_after(m, start, j))->0 as int)) != lowercase(
            libname,
        )
    &&& forall|j: nat| j <= k ==> entry_loadable(m, (#[trigger] entry_after(m, start, j))->0 as int)
}

/// Whether some entry of the load-order list, walking from the first, has
/// the name `libname` (case ignored).
pub open spec fn entry_named_in_list(m: Seq<MemView>, libname: Seq<char>) -> bool {
    &&& can_open(m)
    &&& exists|k: nat| first_named_entry(m, first_entry(m), libname, k)
}

/// Address of the first entry, walking from the first, named `libname`
/// (case ignored).
pub open spec fn named_entry(m: Seq<MemView>, libname: Seq<char>) -> u64 {
    entry_after(m, first_entry(m), named_entry_index(m, libname))->0
}

/// Position, walking from the first, of the first entry named `libname`
/// (case ignored).
pub open spec fn named_entry_index(m: Seq<MemView>, libname: Seq<char>) -> nat {
    choose|k: nat| first_named_entry(m, first_entry(m), libname, k)
}

/// Names are compared with case ignored on both sides: where, walking the
/// load-order list from the first entry, the `k`-th entry is the first whose
/// name equals `libname` once both are lower-cased (every entry up to it
/// being loadable), that entry is the one found for `libname`, at position
/// `k`, though its own name and `libname` differ in case.
pub proof fn lemma_named_entry_ignores_case(m: Seq<MemView>, libname: Seq<char>, k: nat)
    requires
        can_open(m),
        entry_after(m, first_entry(m), k) is Some,
        lowercase(entry_name(m, entry_after(m, first_entry(m), k)->0 as int)) == lowercase(libname),
        forall|j: nat|
            j < k ==> lowercase(entry_name(m, (#[trigger] entry_after(m, first_entry(m), j))->0 as int))
                != lowercase(libname),
        forall|j: nat| j <= k ==> entry_loadable(m, (#[trigger] entry_after(m, first_entry(m), j))->0 as int),
    ensures
        entry_named_in_list(m, libname),
        named_entry_index(m, libname) == k,
        named_entry(m, libname) == entry_after(m, first_entry(m), k)->0,
{
    let first = first_entry(m);
    assert(first_named_entry(m, first, libname, k));
    let c = named_entry_index(m, libname);
    assert(first_named_entry(m, first, libname, c));
    if c < k {
        assert(lowercase(entry_name(m, entry_after(m, first, c)->0 as int)) != lowercase(libname));
    } else if k < c {
        assert(lowercase(entry_name(m, entry_after(m, first, k)->0 as int)) != lowercase(libname));
    }
}

/// Sets the base address recorded in the entry of the module `libname`
/// (case ignored).
pub fn update_ldr_entry_base(libname: &str, base: u64, emu: &mut Emu)
    requires
        entry_named_in_list(old(emu).maps@, libname@),
    ensures
        final(emu).maps@ == write_u64(
            old(emu).maps@,
            named_entry(old(emu).maps@, libname@) + 0x30,
            base,
        ),
        final(emu).regs == old(emu).regs,
{
    let ghost m = emu.maps@;
    let ghost first = first_entry(m);
    let ghost kk = choose|k: nat| first_named_entry(m, first, libname@, k);
    let lower = to_lowercase(libname);
    let mut flink = Flink::new(emu);
    proof {
        assert(entry_after(m, first, 0) == Some(first));
        assert(entry_loadable(m, entry_after(m, first, 0)->0 as int));
    }
    flink.load(emu);
    let ghost mut j: nat = 0;
    loop
        invariant
            emu.maps@ == m,
            *emu == *old(emu),
            first == first_entry(m),
            first_named_entry(m, first, libname@, kk),
            j <= kk,
            entry_after(m, first, j) is Some,
            flink@.flink_addr == entry_after(m, first, j)->0,
            flink@.mod_name == entry_name(m, flink@.flink_addr as int),
            lower@ == lowercase(libname@),
        ensures
            j == kk,
            flink@.flink_addr == entry_after(m, first, kk)->0,
        decreases kk - j,
    {
        let lname = to_lowercase(flink.mod_name.as_str());
        if lname == lower {
            break;
        }
        proof {
            lemma_entry_after_prefix(m, first, j + 1, kk);
        }
        flink.next(emu);
        proof {
            j = j + 1;
        }
    }
    proof {
        assert(entry_loadable(m, entry_after(m, first, kk)->0 as int));
    }
    flink.set_mod_base(base, emu);
}

/// `n` zero bytes.
pub open spec fn zeros(n: nat) -> Seq<u8> {
    Seq::new(n, |j: int| 0u8)
}

/// A fresh map of `n` zero bytes.
pub open spec fn fresh_map(name: Seq<char>, base: int, n: nat) -> MemView {
    MemView { name, base, bytes: zeros(n) }
}

/// Bytes set aside for a loader entry: the entry, then room for its name.
pub open spec fn entry_space() -> int {
    LDR_DATA_TABLE_ENTRY64_SIZE + 0x40 + 1024
}

/// Where the next loader entry goes: the general allocator's answer.
pub open spec fn entry_address(m: Seq<MemView>) -> u64 {
    first_fit(m, entry_space(), ALLOC64_MIN as int, ALLOC64_MAX as int)->0
}

/// The map of a new loader entry of module `libname` at `a`, before the
/// entry itself is saved: its last byte marked, the NUL-terminated name
/// right after the entry.
pub open spec fn entry_map(libname: Seq<char>, a: int) -> MemView {
    fresh_map(libname + ".ldr"@, a, entry_space() as nat).overwrite(a + entry_space() - 1, seq![0x61u8])
        .overwrite(a + LDR_DATA_TABLE_ENTRY64_SIZE, wide_bytes(libname.push('\0')))
}

/// A new loader entry at `space`: linked between `prev` and `next`, or to
/// itself where `next` is `0`.
pub open spec fn new_entry(space: u64, base: u64, entry_point: u64, next: u64, prev: u64) -> LdrDataTableEntry64 {
    let name = (space + LDR_DATA_TABLE_ENTRY64_SIZE) as u64;
    let (load, memory, init) = if next != 0 {
        (
            ListEntry64 { flink: next, blink: prev },
            ListEntry64 { flink: (prev + 0x10) as u64, blink: (next + 0x10) as u64 },
            ListEntry64 { flink: (next + 0x20) as u64, blink: (prev + 0x20) as u64 },
        )
    } else {
        (
            ListEntry64 { flink: space, blink: space },
            ListEntry64 { flink: (space + 0x10) as u64, blink: (space + 0x10) as u64 },
            ListEntry64 { flink: (space + 0x20) as u64, blink: (space + 0x20) as u64 },
        )
    };
    LdrDataTableEntry64 {
        in_load_order_links: load,
        in_memory_order_links: memory,
        in_initialization_order_links: init,
        dll_base: base,
        entry_point,
        size_of_image: 0,
        full_dll_name: name,
        base_dll_name: name,
        flags: 0,
        load_count: 0,
        tls_index: 0,
        hash_links: ListEntry64 { flink: next, blink: prev },
    }
}

/// Whether a loader entry can be created: the allocator finds room, the
/// name fits after the entry, and the links do not overflow.
pub open spec fn can_create_ldr_entry(m: Seq<MemView>, libname: Seq<char>, next: u64, prev: u64) -> bool {
    &&& first_fit(m, entry_space(), ALLOC64_MIN as int, ALLOC64_MAX as int) is Some
    &&& LDR_DATA_TABLE_ENTRY64_SIZE + 2 * (libname.len() + 1) <= entry_space()
    &&& next != 0 ==> next + 0x20 <= u64::MAX && prev + 0x20 <= u64::MAX
}

/// The memory after creating a loader entry.
pub open spec fn after_create_ldr_entry(
    m: Seq<MemView>,
    base: u64,
    entry_point: u64,
    libname: Seq<char>,
    next: u64,
    prev: u64,
) -> Seq<MemView> {
    let a = entry_address(m);
    save_ldr_entry(m.push(entry_map(libname, a as int)), a as int, new_entry(a, base, entry_point, next, prev))
}

/// Creates the loader entry of module `libname` in a map of its own, linked
/// between `prev_flink` and `next_flink` (to itself where `next_flink` is
/// `0`), and returns its address.
pub fn create_ldr_entry(
    emu: &mut Emu,
    base: u64,
    entry_point: u64,
    libname: &str,
    next_flink: u64,
    prev_flink: u64,
) -> (r: u64)
    requires
        can_create_ldr_entry(old(emu).maps@, libname@, next_flink, prev_flink),
    ensures
        r == entry_address(old(emu).maps@),
        final(emu).maps@ == after_create_ldr_entry(
            old(emu).maps@,
            base,
            entry_point,
            libname@,
            next_flink,
            prev_flink,
        ),
        final(emu).regs == old(emu).regs,
{
    let sz = LdrDataTableEntry64::size() + 0x40 + 1024;
    let space_addr = match emu.maps.alloc64(sz) {
        Some(a) => a,
        None => {
            proof {
                assert(false);
            }
            0
        },
    };
    let mut lib = String::from_str(libname);
    lib.append(".ldr");
    let mut mem = Mem64::new(lib.as_str(), space_addr, sz);
    mem.write_byte(space_addr + sz - 1, 0x61);
    let mut ldr = LdrDataTableEntry64::new();
    if next_flink != 0 {
        ldr.in_load_order_links.flink = next_flink;
        ldr.in_load_order_links.blink = prev_flink;
        ldr.in_memory_order_links.flink = prev_flink + 0x10;
        ldr.in_memory_order_links.blink = next_flink + 0x10;
        ldr.in_initialization_order_links.flink = next_flink + 0x20;
        ldr.in_initialization_order_links.blink = prev_flink + 0x20;
    } else {
        ldr.in_load_order_links.flink = space_addr;
        ldr.in_load_order_links.blink = space_addr;
        ldr.in_memory_order_links.flink = space_addr + 0x10;
        ldr.in_memory_order_links.blink = space_addr + 0x10;
        ldr.in_initialization_order_links.flink = space_addr + 0x20;
        ldr.in_initialization_order_links.blink = space_addr + 0x20;
    }
    ldr.dll_base = base;
    ldr.entry_point = entry_point;
    ldr.size_of_image = 0;
    ldr.full_dll_name = space_addr + LdrDataTableEntry64::size();
    ldr.base_dll_name = space_addr + LdrDataTableEntry64::size();
    ldr.flags = 0;
    ldr.load_count = 0;
    ldr.tls_index = 0;
    ldr.hash_links.flink = next_flink;
    ldr.hash_links.blink = prev_flink;
    let mut name = String::from_str(libname);
    push_char(&mut name, '\0');
    mem.write_wide_string(space_addr + LdrDataTableEntry64::size(), name.as_str());
    emu.maps.add_map(mem);
    ldr.save(space_addr, &mut emu.maps);
    space_addr
}

/// Sets the image base address recorded in the PEB (at `0x10`).
pub fn update_peb_image_base(emu: &mut Emu, base: u64)
    requires
        named(old(emu).maps@, "peb"@) is Some,
        old(emu).maps@[named(old(emu).maps@, "peb"@)->0].base + 0x10 <= u64::MAX,
    ensures
        final(emu).maps@ == write_u64(
            old(emu).maps@,
            old(emu).maps@[named(old(emu).maps@, "peb"@)->0].base + 0x10,
            base,
        ),
        final(emu).regs == old(emu).regs,
{
    let peb = emu.maps.get_mem("peb");
    let peb_base = peb.get_base();
    emu.maps.write_qword(peb_base + 0x10, base);
}

/// Where the loader data goes: the lowest free room among loader
/// structures.
pub open spec fn ldr_address(m: Seq<MemView>) -> u64 {
    first_fit(m, PEB_LDR_DATA64_SIZE as int, LIB64_MIN as int, LIB64_MAX as int)->0
}

/// Loader data whose three module lists and entry in progress all hold the
/// one entry at `entry`.
pub open spec fn loader_data(entry: u64) -> PebLdrData64 {
    PebLdrData64 {
        initializated: 1,
        in_load_order_module_list: ListEntry64 { flink: entry, blink: entry },
        in_memory_order_module_list: ListEntry64 {
            flink: (entry + 0x10) as u64,
            blink: (entry + 0x10) as u64,
        },
        in_initialization_order_module_list: ListEntry64 {
            flink: (entry + 0x20) as u64,
            blink: (entry + 0x20) as u64,
        },
        entry_in_progress: ListEntry64 { flink: entry, blink: entry },
        ..empty_peb_ldr_data()
    }
}

/// The memory with the loader data's map added, still zero.
pub open spec fn with_ldr_map(m: Seq<MemView>) -> Seq<MemView> {
    m.push(fresh_map("ldr"@, ldr_address(m) as int, PEB_LDR_DATA64_SIZE as nat))
}

/// Whether the loader data can be set up: there is room for it among loader
/// structures, and room for the entry of the main module.
pub open spec fn can_init_ldr(m: Seq<MemView>) -> bool {
    &&& first_fit(m, PEB_LDR_DATA64_SIZE as int, LIB64_MIN as int, LIB64_MAX as int) is Some
    &&& first_fit(m, entry_space(), ALLOC64_MIN as int, ALLOC64_MAX as int) is Some
}

/// The memory after setting up the loader data: its map, the entry of the
/// main module `loader.exe` linked to itself, and the loader data whose
/// lists hold that entry.
pub open spec fn after_init_ldr(m: Seq<MemView>) -> Seq<MemView> {
    let m1 = with_ldr_map(m);
    let entry = entry_address(m1);
    save_peb_ldr_data(
        after_create_ldr_entry(m1, 0, 0, "loader.exe"@, 0, 0),
        ldr_address(m) as int,
        loader_data(entry),
    )
}

/// Sets the loader data up, with the entry of the main module, and returns
/// its address.
pub fn init_ldr(emu: &mut Emu) -> (r: u64)
    requires
        can_init_ldr(old(emu).maps@),
    ensures
        r == ldr_address(old(emu).maps@),
        final(emu).maps@ == after_init_ldr(old(emu).maps@),
        final(emu).regs == old(emu).regs,
        ({
            let e = entry_address(with_ldr_map(old(emu).maps@));
            let mm = final(emu).maps@;
            &&& read_u64(mm, r + 0x10) == Some(e)
            &&& read_u64(mm, r + 0x18) == Some(e)
            &&& read_u64(mm, r + 0x20) == Some((e + 0x10) as u64)
            &&& read_u64(mm, r + 0x28) == Some((e + 0x10) as u64)
            &&& read_u64(mm, r + 0x30) == Some((e + 0x20) as u64)
            &&& read_u64(mm, r + 0x38) == Some((e + 0x20) as u64)
        }),
{
    let ghost m = emu.maps@;
    let ldr_sz = PebLdrData64::size();
    let ldr_addr = match emu.maps.lib64_alloc(ldr_sz as u64) {
        Some(a) => a,
        None => {
            proof {
                assert(false);
            }
            0
        },
    };
    emu.maps.create_map("ldr", ldr_addr, ldr_sz as u64);
    proof {
        assert(emu.maps@ == with_ldr_map(m));
        lemma_first_fit_push_outside(
            m,
            fresh_map("ldr"@, ldr_addr as int, PEB_LDR_DATA64_SIZE as nat),
            entry_space(),
            ALLOC64_MIN as int,
            ALLOC64_MAX as int,
        );
        reveal_strlit("loader.exe");
    }
    let module_entry = create_ldr_entry(emu, 0, 0, "loader.exe", 0, 0);
    let mut ldr = PebLdrData64::new();
    ldr.initializated = 1;
    ldr.in_load_order_module_list.flink = module_entry;
    ldr.in_load_order_module_list.blink = module_entry;
    ldr.in_memory_order_module_list.flink = module_entry + 0x10;
    ldr.in_memory_order_module_list.blink = module_entry + 0x10;
    ldr.in_initialization_order_module_list.flink = module_entry + 0x20;
    ldr.in_initialization_order_module_list.blink = module_entry + 0x20;
    ldr.entry_in_progress.flink = module_entry;
    ldr.entry_in_progress.blink = module_entry;
    ldr.save(ldr_addr, &mut emu.maps);
    proof {
        crate::emu::loader_laws::lemma_loader_lists_hold_main_entry(m);
    }
    return ldr_addr;
}

/// Address at which the PEB goes, once the loader data is set up.
pub open spec fn peb_address(m: Seq<MemView>) -> u64 {
    first_fit(after_init_ldr(m), PEB64_SIZE as int, LIB64_MIN as int, LIB64_MAX as int)->0
}

/// Whether the PEB can be set up: the loader data can, and then there is
/// room for the PEB among loader structures.
pub open spec fn can_init_peb(m: Seq<MemView>) -> bool {
    &&& can_init_ldr(m)
    &&& first_fit(after_init_ldr(m), PEB64_SIZE as int, LIB64_MIN as int, LIB64_MAX as int) is Some
}

/// The memory after setting up the PEB: the loader data as `init_ldr`
/// leaves it, then a map `peb` holding a PEB that points at the loader data
/// and at the process parameters, with `BeingDebugged` cleared.
pub open spec fn after_init_peb(m: Seq<MemView>) -> Seq<MemView> {
    let m1 = after_init_ldr(m);
    let p = peb_address(m);
    let peb = save_peb(
        fresh_map("peb"@, p as int, PEB64_SIZE as nat),
        peb64_value(0, ldr_address(m), 0x521e20),
    );
    write_u8(m1.push(peb), p + 2, 0)
}

/// Sets the PEB up, with the loader data and the main module's entry.
pub fn init_peb(emu: &mut Emu)
    requires
        can_init_peb(old(emu).maps@),
    ensures
        final(emu).maps@ == after_init_peb(old(emu).maps@),
        final(emu).regs == old(emu).regs,
{
    let ldr = init_ldr(emu);
    let peb_addr = match emu.maps.lib64_alloc(PEB64::size() as u64) {
        Some(a) => a,
        None => {
            proof {
                assert(false);
            }
            0
        },
    };
    let mut peb_map = Mem64::new("peb", peb_addr, PEB64::size() as u64);
    let process_parameters = 0x521e20;
    let peb = PEB64::new(0, ldr, process_parameters);
    peb.save(&mut peb_map);
    emu.maps.add_map(peb_map);
    emu.maps.write_byte(peb_addr + 2, 0);
}

/// The last entry of the load-order list: the one whose forward link leads
/// back to the first.
pub open spec fn last_entry(m: Seq<MemView>) -> u64 {
    entry_after(m, first_entry(m), (list_length(m) - 1) as nat)->0
}

/// Whether a module can be linked in: the list can be walked, its new entry
/// can be created between the last and the first entry, and the links that
/// are updated do not overflow.
pub open spec fn can_link_module(m: Seq<MemView>, libname: Seq<char>) -> bool {
    &&& list_walkable(m)
    &&& can_create_ldr_entry(m, libname, first_entry(m), last_entry(m))
    &&& last_entry(m) + 0x28 <= u64::MAX
    &&& first_entry(m) + 0x30 <= u64::MAX
}

/// The memory after linking in a module: its new entry, then the last
/// entry's forward links and the first entry's backward links, in all three
/// lists, pointing at it.
pub open spec fn after_link_module(m: Seq<MemView>, base: u64, pe_off: u32, libname: Seq<char>) -> Seq<MemView> {
    let first = first_entry(m);
    let last = last_entry(m);
    let space = entry_address(m);
    let m1 = after_create_ldr_entry(m, base, pe_off as u64, libname, first, last);
    let m2 = write_u64(m1, last as int, space);
    let m3 = write_u64(m2, last + 0x10, (space + 0x10) as u64);
    let m4 = write_u64(m3, last + 0x20, (space + 0x20) as u64);
    let m5 = write_u64(m4, first + 8, space);
    let m6 = write_u64(m5, first + 0x18, (space + 0x10) as u64);
    write_u64(m6, first + 0x28, (space + 0x20) as u64)
}

/// Links a newly loaded module in at the end of the load-order list.
pub fn dynamic_link_module(base: u64, pe_off: u32, libname: &str, emu: &mut Emu)
    requires
        can_link_module(old(emu).maps@, libname@),
    ensures
        final(emu).maps@ == after_link_module(old(emu).maps@, base, pe_off, libname@),
        final(emu).regs == old(emu).regs,
{
    let ghost m = emu.maps@;
    let ghost first = first_entry(m);
    let ghost n = list_length(m);
    let mut flink = Flink::new(emu);
    proof {
        assert(entry_after(m, first, 0) == Some(first));
    }
    flink.load(emu);
    let first_flink = flink.get_ptr();
    let ghost mut k: nat = 0;
    loop
        invariant_except_break
            k + 2 <= n || k == 0,
        invariant
            emu.maps@ == m,
            *emu == *old(emu),
            first == first_entry(m),
            first_flink == first,
            n == list_length(m),
            ring_of_length(m, first, n),
            entry_after(m, first, k) is Some,
            flink@.flink_addr == entry_after(m, first, k)->0,
        ensures
            flink@.flink_addr == last_entry(m),
        decreases n - k,
    {
        proof {
            if n == 1 {
                assert(entry_after(m, first, 1) == Some(first));
                assert(entry_after(m, first, 0) == Some(first));
                assert(entry_after(m, first, 2) == Some(first));
                assert(entry_loadable(m, entry_after(m, first, 0)->0 as int));
            } else {
                lemma_entry_after_prefix(m, first, k + 1, n);
                lemma_entry_after_prefix(m, first, k + 2, n);
                assert(entry_loadable(m, entry_after(m, first, k + 1)->0 as int));
            }
        }
        flink.next(emu);
        proof {
            k = k + 1;
        }
        if flink.get_next_flink(emu) == first_flink {
            proof {
                if n >= 2 {
                    assert(k + 1 == n);
                }
            }
            break;
        }
    }
    let next_flink: u64 = flink.get_ptr();
    let space_addr = create_ldr_entry(emu, base, pe_off.into(), libname, first_flink, next_flink);
    emu.maps.write_qword(next_flink, space_addr);
    emu.maps.write_qword(next_flink + 0x10, space_addr + 0x10);
    emu.maps.write_qword(next_flink + 0x20, space_addr + 0x20);
    emu.maps.write_qword(first_flink + 8, space_addr);
    emu.maps.write_qword(first_flink + 0x10 + 8, space_addr + 0x10);
    emu.maps.write_qword(first_flink + 0x20 + 8, space_addr + 0x20);
}

/// What is shown of one entry of the load-order list.
pub struct LinkedModuleView {
    pub ptr: u64,
    pub name: Seq<char>,
    pub flink: u64,
    pub blink: u64,
    pub base: u64,
    pub pe_hdr: u64,
    pub pe1: u8,
    pub pe2: u8,
}

/// One entry of the load-order list as it is shown: its address, module
/// name, links, module base, PE header offset and the first two bytes there.
pub struct LinkedModule {
    pub ptr: u64,
    pub name: String,
    pub flink: u64,
    pub blink: u64,
    pub base: u64,
    pub pe_hdr: u64,
    pub pe1: u8,
    pub pe2: u8,
}

impl View for LinkedModule {
    type V = LinkedModuleView;

    open spec fn view(&self) -> LinkedModuleView {
        LinkedModuleView {
            ptr: self.ptr,
            name: self.name@,
            flink: self.flink,
            blink: self.blink,
            base: self.base,
            pe_hdr: self.pe_hdr,
            pe1: self.pe1,
            pe2: self.pe2,
        }
    }
}

/// The byte at `addr`, or `0` where no map holds it.
pub open spec fn byte_or_zero(m: Seq<MemView>, addr: int) -> u8 {
    match read_u8(m, addr) {
        Some(b) => b,
        None => 0,
    }
}

/// What is shown of the entry at `ptr`.
pub open spec fn linked_module_at(m: Seq<MemView>, ptr: u64) -> LinkedModuleView {
    let base = entry_base(m, ptr as int);
    let pe_hdr = pe_header_offset(m, base as int);
    LinkedModuleView {
        ptr,
        name: entry_name(m, ptr as int),
        flink: read_u64(m, ptr as int)->0,
        blink: read_u64(m, ptr + 8)->0,
        base,
        pe_hdr,
        pe1: byte_or_zero(m, base + pe_hdr),
        pe2: byte_or_zero(m, base + pe_hdr + 1),
    }
}

/// Whether the entry at `ptr` can be shown: its backward link can be read
/// and the PE header address does not overflow.
pub open spec fn linked_module_readable(m: Seq<MemView>, ptr: u64) -> bool {
    let base = entry_base(m, ptr as int);
    &&& read_u64(m, ptr + 8) is Some
    &&& base + pe_header_offset(m, base as int) + 1 <= u64::MAX
}

/// Whether the whole load-order list can be walked and shown.
pub open spec fn list_showable(m: Seq<MemView>) -> bool {
    &&& list_walkable(m)
    &&& forall|k: nat|
        k < list_length(m) ==> linked_module_readable(
            m,
            (#[trigger] entry_after(m, first_entry(m), k))->0,
        )
}

/// The entries of the load-order list, in order from the first, as they are
/// shown.
pub fn linked_modules(emu: &mut Emu) -> (r: Vec<LinkedModule>)
    requires
        list_showable(old(emu).maps@),
    ensures
        r@.len() == list_length(old(emu).maps@),
        forall|k: int|
            0 <= k < r@.len() ==> (#[trigger] r@[k])@ == linked_module_at(
                old(emu).maps@,
                entry_after(old(emu).maps@, first_entry(old(emu).maps@), k as nat)->0,
            ),
        forall|k: int|
            0 <= k < r@.len() ==> {
                let l = (#[trigger] r@[k])@;
                let m = old(emu).maps@;
                &&& read_u64(m, l.ptr + 0x30) == Some(l.base)
                &&& (read_u32(m, l.base + 0x3c) is Some ==> l.pe_hdr == read_u32(m, l.base + 0x3c)->0 as u64)
                &&& (read_u8(m, l.base + l.pe_hdr) is Some ==> l.pe1 == read_u8(m, l.base + l.pe_hdr)->0)
                &&& (read_u8(m, l.base + l.pe_hdr + 1) is Some ==> l.pe2 == read_u8(
                    m,
                    l.base + l.pe_hdr + 1,
                )->0)
            },
        *final(emu) == *old(emu),
{
    let ghost m = emu.maps@;
    let ghost first = first_entry(m);
    let ghost n = list_length(m);
    let mut out: Vec<LinkedModule> = Vec::new();
    let mut flink = Flink::new(emu);
    proof {
        assert(entry_after(m, first, 0) == Some(first));
    }
    flink.load(emu);
    let first_flink = flink.get_ptr();
    let ghost mut k: nat = 0;
    loop
        invariant_except_break
            k < n,
        invariant
            emu.maps@ == m,
            *emu == *old(emu),
            list_showable(m),
            first == first_entry(m),
            first_flink == first,
            n == list_length(m),
            ring_of_length(m, first, n),
            k <= n,
            out@.len() == k,
            forall|j: int|
                0 <= j < k ==> (#[trigger] out@[j])@ == linked_module_at(
                    m,
                    entry_after(m, first, j as nat)->0,
                ),
            entry_after(m, first, k) is Some,
            flink@.flink_addr == entry_after(m, first, k)->0,
            flink@ == loaded(flink@, m),
        ensures
            out@.len() == n,
        decreases n - k,
    {
        proof {
            lemma_entry_after_prefix(m, first, k + 1, n);
            assert(linked_module_readable(m, entry_after(m, first, k)->0));
        }
        let base = flink.mod_base;
        let pe1 = match emu.maps.read_byte(base + flink.pe_hdr) {
            Some(b) => b,
            None => 0,
        };
        let pe2 = match emu.maps.read_byte(base + flink.pe_hdr + 1) {
            Some(b) => b,
            None => 0,
        };
        let line = LinkedModule {
            ptr: flink.get_ptr(),
            name: flink.mod_name.clone(),
            flink: flink.get_next_flink(emu),
            blink: flink.get_prev_flink(emu),
            base,
            pe_hdr: flink.pe_hdr,
            pe1,
            pe2,
        };
        out.push(line);
        proof {
            if k + 1 == n {
                assert(entry_after(m, first, 0) == Some(first));
            }
        }
        flink.next(emu);
        proof {
            k = k + 1;
        }
        if flink.get_ptr() == first_flink {
            break;
        }
    }
    proof {
        assert forall|k: int| 0 <= k < out@.len() implies {
            let l = (#[trigger] out@[k])@;
            &&& read_u64(m, l.ptr + 0x30) == Some(l.base)
            &&& (read_u32(m, l.base + 0x3c) is Some ==> l.pe_hdr == read_u32(m, l.base + 0x3c)->0 as u64)
            &&& (read_u8(m, l.base + l.pe_hdr) is Some ==> l.pe1 == read_u8(m, l.base + l.pe_hdr)->0)
            &&& (read_u8(m, l.base + l.pe_hdr + 1) is Some ==> l.pe2 == read_u8(
                m,
                l.base + l.pe_hdr + 1,
            )->0)
        } by {
            let kk = k as nat;
            crate::emu::peb64::lemma_entry_after_prefix(m, first, kk, n);
            crate::emu::peb64::lemma_entry_after_prefix(m, first, kk + 1, n);
            let p = entry_after(m, first, kk)->0;
            assert(entry_loadable(m, p as int));
            assert(linked_module_readable(m, p));
            lemma_linked_module_reads(m, p);
        }
    }
    out
}

/// What unlinking a module found: the names of the entries passed before
/// it, and the entries before and after it.
pub struct UnlinkReport {
    pub passed: Vec<String>,
    pub prev_flink: u64,
    pub next_flink: u64,
}

/// Whether entry `k` after `start` is the first whose name is exactly
/// `libname`, the entries up to the one after it being loadable.
pub open spec fn first_exact_entry(m: Seq<MemView>, start: u64, libname: Seq<char>, k: nat) -> bool {
    &&& entry_after(m, start, k + 1) is Some
    &&& entry_name(m, entry_after(m, start, k)->0 as int) == libname
    &&& forall|j: nat| j < k ==> entry_name(m, (#[trigger] entry_after(m, start, j))->0 as int) != libname
    &&& forall|j: nat| j <= k + 1 ==> entry_loadable(m, (#[trigger] entry_after(m, start, j))->0 as int)
}

/// Position, walking from the first, of the first entry named exactly
/// `libname`.
pub open spec fn exact_entry_index(m: Seq<MemView>, libname: Seq<char>) -> nat {
    choose|k: nat| first_exact_entry(m, first_entry(m), libname, k)
}

/// Whether a module can be unlinked: some entry, walking from the first, is
/// named exactly `libname`, and the write after it does not overflow.
pub open spec fn can_unlink_module(m: Seq<MemView>, libname: Seq<char>) -> bool {
    &&& can_open(m)
    &&& exists|k: nat| first_exact_entry(m, first_entry(m), libname, k)
    &&& entry_after(m, first_entry(m), exact_entry_index(m, libname) + 1)->0 + 4 <= u64::MAX
}

/// Takes the entry of module `libname` out of the forward walk: clears the
/// forward link of the entry before it and points the entry after it (at
/// offset 4) back at that entry.
pub fn unlink_module(libname: &str, emu: &mut Emu) -> (r: UnlinkReport)
    requires
        can_unlink_module(old(emu).maps@, libname@),
    ensures
        ({
            let m = old(emu).maps@;
            let first = first_entry(m);
            let k = exact_entry_index(m, libname@);
            let prev = if k == 0 { 0u64 } else { entry_after(m, first, (k - 1) as nat)->0 };
            let next = entry_after(m, first, k + 1)->0;
            &&& r.passed@.len() == k
            &&& forall|j: int|
                0 <= j < k ==> (#[trigger] r.passed@[j])@ == entry_name(
                    m,
                    entry_after(m, first, j as nat)->0 as int,
                )
            &&& r.prev_flink == prev
            &&& r.next_flink == next
            &&& final(emu).maps@ == write_u64(write_u64(m, prev as int, 0), next + 4, prev)
        }),
        final(emu).regs == old(emu).regs,
{
    let ghost m = emu.maps@;
    let ghost first = first_entry(m);
    let ghost kk = exact_entry_index(m, libname@);
    let mut passed: Vec<String> = Vec::new();
    let mut prev_flink: u64 = 0;
    let mut flink = Flink::new(emu);
    proof {
        assert(entry_after(m, first, 0) == Some(first));
        assert(entry_loadable(m, entry_after(m, first, 0)->0 as int));
    }
    flink.load(emu);
    let ghost mut j: nat = 0;
    loop
        invariant
            emu.maps@ == m,
            *emu == *old(emu),
            first == first_entry(m),
            first_exact_entry(m, first, libname@, kk),
            j <= kk,
            entry_after(m, first, j) is Some,
            flink@.flink_addr == entry_after(m, first, j)->0,
            flink@.mod_name == entry_name(m, flink@.flink_addr as int),
            passed@.len() == j,
            forall|i: int|
                0 <= i < j ==> (#[trigger] passed@[i])@ == entry_name(
                    m,
                    entry_after(m, first, i as nat)->0 as int,
                ),
            prev_flink == if j == 0 { 0u64 } else { entry_after(m, first, (j - 1) as nat)->0 },
        ensures
            j == kk,
        decreases kk - j,
    {
        if str_eq(flink.mod_name.as_str(), libname) {
            break;
        }
        passed.push(flink.mod_name.clone());
        prev_flink = flink.get_ptr();
        proof {
            lemma_entry_after_prefix(m, first, j + 1, kk + 1);
        }
        flink.next(emu);
        proof {
            j = j + 1;
        }
    }
    proof {
        assert(entry_loadable(m, entry_after(m, first, kk + 1)->0 as int));
    }
    flink.next(emu);
    let next_flink = flink.get_ptr();
    emu.maps.write_qword(prev_flink, 0);
    emu.maps.write_qword(next_flink + 4, prev_flink);
    UnlinkReport { passed, prev_flink, next_flink }
}

/// A ring length is unique: it is the first return to the start.
pub proof fn lemma_ring_length_unique(m: Seq<MemView>, start: u64, n1: nat, n2: nat)
    requires
        ring_of_length(m, start, n1),
        ring_of_length(m, start, n2),
    ensures
        n1 == n2,
{
    if n1 < n2 {
        assert(entry_after(m, start, n1) == Some(start));
    } else if n2 < n1 {
        assert(entry_after(m, start, n2) == Some(start));
    }
}

/// Whether the entry at `ptr` can be loaded without a failed read or an
/// overflow.
pub fn entry_is_loadable(emu: &Emu, ptr: u64) -> (r: bool)
    ensures
        r == entry_loadable(emu.maps@, ptr as int),
{
    if ptr > u64::MAX - 0x50 {
        return false;
    }
    let base = match emu.maps.read_qword(ptr + 0x30) {
        Some(b) => b,
        None => {
            return false;
        },
    };
    match emu.maps.read_qword(ptr + 0x50) {
        Some(_) => {},
        None => {
            return false;
        },
    }
    if base > u64::MAX - 0x3c {
        return false;
    }
    let pe_hdr: u64 = match emu.maps.read_dword(base + 0x3c) {
        Some(h) => h as u64,
        None => 0,
    };
    if pe_hdr == 0 {
        return true;
    }
    if pe_hdr > u64::MAX - 0x88 || base > u64::MAX - 0x88 - pe_hdr {
        return false;
    }
    let rva: u64 = match emu.maps.read_dword(base + pe_hdr + 0x88) {
        Some(r) => r as u64,
        None => 0,
    };
    if rva == 0 {
        return true;
    }
    if base > u64::MAX - rva || rva + base > u64::MAX - 0x20 {
        return false;
    }
    let table = rva + base;
    match emu.maps.read_dword(table + 0x18) {
        Some(_) => {},
        None => {
            return false;
        },
    }
    match emu.maps.read_dword(table + 0x20) {
        Some(v) => base <= u64::MAX - v as u64,
        None => false,
    }
}

/// Whether a cursor can be opened on the load-order list.
pub fn list_can_open(emu: &Emu) -> (r: bool)
    ensures
        r == can_open(emu.maps@),
{
    let found = emu.maps.find_mem("peb");
    proof {
        crate::emu::maps::lemma_named_from(emu.maps@, "peb"@, 0);
    }
    match found {
        None => false,
        Some(i) => {
            let peb = emu.maps.get(i);
            let base = peb.get_base();
            if base > u64::MAX - 0x18 || !peb.inside(base + 0x18, 8) {
                return false;
            }
            let ldr = peb.read_qword(base + 0x18);
            if ldr > u64::MAX - 0x10 {
                return false;
            }
            match emu.maps.read_qword(ldr + 0x10) {
                Some(_) => true,
                None => false,
            }
        },
    }
}

/// The first entry of the load-order list.
fn first_entry_of(emu: &Emu) -> (r: u64)
    requires
        can_open(emu.maps@),
    ensures
        r == first_entry(emu.maps@),
{
    let peb = emu.maps.get_mem("peb");
    let base = peb.get_base();
    let ldr = peb.read_qword(base + 0x18);
    match emu.maps.read_qword(ldr + 0x10) {
        Some(v) => v,
        None => {
            proof {
                assert(false);
            }
            0
        },
    }
}

/// The length of the load-order list where the list can be walked and its
/// forward links lead back to the first entry within `limit` links;
/// `None` otherwise.
pub fn load_order_length(emu: &Emu, limit: u64) -> (r: Option<u64>)
    ensures
        r matches Some(n) ==> list_walkable(emu.maps@) && list_length(emu.maps@) == n,
        r is None ==> !can_open(emu.maps@) || forall|n: nat|
            1 <= n <= limit ==> !ring_of_length(emu.maps@, first_entry(emu.maps@), n),
{
    let ghost m = emu.maps@;
    if !list_can_open(emu) {
        return None;
    }
    let first = first_entry_of(emu);
    let mut ptr = first;
    let mut k: u64 = 0;
    assert(entry_after(m, first, 0) == Some(first));
    while k < limit
        invariant
            m == emu.maps@,
            can_open(m),
            first == first_entry(m),
            k <= limit,
            entry_after(m, first, k as nat) == Some(ptr),
            forall|j: nat| j < k ==> entry_loadable(m, (#[trigger] entry_after(m, first, j))->0 as int),
            forall|j: nat| 1 <= j <= k ==> entry_after(m, first, j) != Some(first),
        decreases limit - k,
    {
        if !entry_is_loadable(emu, ptr) {
            proof {
                assert forall|n: nat| 1 <= n <= limit implies !ring_of_length(m, first, n) by {
                    if ring_of_length(m, first, n) {
                        if k < n {
                            assert(entry_loadable(m, entry_after(m, first, k as nat)->0 as int));
                        } else {
                            assert(entry_after(m, first, n) != Some(first));
                        }
                    }
                }
            }
            return None;
        }
        let next = match emu.maps.read_qword(ptr) {
            Some(v) => v,
            None => {
                proof {
                    assert forall|n: nat| 1 <= n <= limit implies !ring_of_length(m, first, n) by {
                        if ring_of_length(m, first, n) {
                            if k < n {
                                lemma_entry_after_prefix(m, first, (k + 1) as nat, n);
                            } else {
                                assert(entry_after(m, first, n) != Some(first));
                            }
                        }
                    }
                }
                return None;
            },
        };
        assert(entry_after(m, first, (k + 1) as nat) == Some(next));
        k = k + 1;
        if next == first {
            proof {
                assert(ring_of_length(m, first, k as nat));
                let n = list_length(m);
                lemma_ring_length_unique(m, first, n, k as nat);
            }
            return Some(k);
        }
        ptr = next;
    }
    proof {
        assert forall|n: nat| 1 <= n <= limit implies !ring_of_length(m, first, n) by {
            if ring_of_length(m, first, n) {
                assert(entry_after(m, first, n) != Some(first));
            }
        }
    }
    None
}

/// Whether every entry of a walkable load-order list can be shown.
pub fn list_can_be_shown(emu: &Emu, n: u64) -> (r: bool)
    requires
        list_walkable(emu.maps@),
        n == list_length(emu.maps@),
    ensures
        r == list_showable(emu.maps@),
{
    let ghost m = emu.maps@;
    let first = first_entry_of(emu);
    let mut ptr = first;
    let mut k: u64 = 0;
    assert(entry_after(m, first, 0) == Some(first));
    while k < n
        invariant
            m == emu.maps@,
            list_walkable(m),
            n == list_length(m),
            ring_of_length(m, first, n as nat),
            first == first_entry(m),
            k <= n,
            entry_after(m, first, k as nat) == Some(ptr),
            forall|j: nat| j < k ==> linked_module_readable(m, (#[trigger] entry_after(m, first, j))->0),
        decreases n - k,
    {
        assert(entry_loadable(m, entry_after(m, first, k as nat)->0 as int));
        let base = match emu.maps.read_qword(ptr + 0x30) {
            Some(b) => b,
            None => {
                proof {
                    assert(false);
                }
                0
            },
        };
        let pe_hdr: u64 = match emu.maps.read_dword(base + 0x3c) {
            Some(h) => h as u64,
            None => 0,
        };
        let readable = match emu.maps.read_qword(ptr + 8) {
            Some(_) => pe_hdr < u64::MAX && base < u64::MAX - pe_hdr,
            None => false,
        };
        if !readable {
            assert(!linked_module_readable(m, entry_after(m, first, k as nat)->0));
            return false;
        }
        proof {
            lemma_entry_after_prefix(m, first, (k + 1) as nat, n as nat);
        }
        ptr = match emu.maps.read_qword(ptr) {
            Some(v) => v,
            None => {
                proof {
                    assert(false);
                }
                0
            },
        };
        k = k + 1;
    }
    true
}

/// Whether `unlink_module` can unlink the module `libname`: the entry named
/// exactly so is among the first `limit` entries, and all that the
/// unlinking reads can be read.
pub fn can_unlink(emu: &Emu, libname: &str, limit: u64) -> (r: bool)
    ensures
        r == (can_unlink_module(emu.maps@, libname@) && exact_entry_index(emu.maps@, libname@) < limit),
{
    let ghost m = emu.maps@;
    if !list_can_open(emu) {
        return false;
    }
    let first = first_entry_of(emu);
    let mut ptr = first;
    let mut k: u64 = 0;
    assert(entry_after(m, first, 0) == Some(first));
    while k < limit
        invariant
            m == emu.maps@,
            can_open(m),
            first == first_entry(m),
            k <= limit,
            entry_after(m, first, k as nat) == Some(ptr),
            forall|j: nat| j < k ==> entry_loadable(m, (#[trigger] entry_after(m, first, j))->0 as int),
            forall|j: nat|
                j < k ==> entry_name(m, (#[trigger] entry_after(m, first, j))->0 as int) != libname@,
        decreases limit - k,
    {
        if !entry_is_loadable(emu, ptr) {
            proof {
                assert forall|c: nat| !first_exact_entry(m, first, libname@, c) by {
                    if first_exact_entry(m, first, libname@, c) {
                        if c < k {
                            assert(entry_name(m, entry_after(m, first, c)->0 as int) != libname@);
                        } else {
                            assert(entry_loadable(m, entry_after(m, first, k as nat)->0 as int));
                        }
                    }
                }
            }
            return false;
        }
        let name_ptr = match emu.maps.read_qword(ptr + 0x50) {
            Some(v) => v,
            None => {
                proof {
                    assert(false);
                }
                0
            },
        };
        let name = emu.maps.read_wide_string(name_ptr);
        let next = match emu.maps.read_qword(ptr) {
            Some(v) => v,
            None => {
                proof {
                    assert forall|c: nat| !first_exact_entry(m, first, libname@, c) by {
                        if first_exact_entry(m, first, libname@, c) {
                            if c < k {
                                assert(entry_name(m, entry_after(m, first, c)->0 as int) != libname@);
                            } else {
                                lemma_entry_after_prefix(m, first, (k + 1) as nat, c + 1);
                            }
                        }
                    }
                }
                return false;
            },
        };
        assert(entry_after(m, first, (k + 1) as nat) == Some(next));
        if str_eq(name.as_str(), libname) {
            let ok = entry_is_loadable(emu, next) && next <= u64::MAX - 4;
            proof {
                let kk = k as nat;
                assert forall|c: nat| first_exact_entry(m, first, libname@, c) implies c == kk by {
                    if c < kk {
                        assert(entry_name(m, entry_after(m, first, c)->0 as int) != libname@);
                    } else if kk < c {
                        assert(entry_name(m, entry_after(m, first, kk)->0 as int) != libname@);
                    }
                }
                if ok {
                    assert(first_exact_entry(m, first, libname@, kk)) by {
                        assert forall|j: nat| j <= kk + 1 implies entry_loadable(
                            m,
                            (#[trigger] entry_after(m, first, j))->0 as int,
                        ) by {
                            if j == kk + 1 {
                            } else if j == kk {
                            }
                        }
                    }
                    assert(exact_entry_index(m, libname@) == kk);
                } else if entry_loadable(m, next as int) {
                    if exists|c: nat| first_exact_entry(m, first, libname@, c) {
                        assert(exact_entry_index(m, libname@) == kk);
                    }
                } else {
                    if first_exact_entry(m, first, libname@, kk) {
                        assert(entry_loadable(m, entry_after(m, first, kk + 1)->0 as int));
                    }
                }
            }
            return ok;
        }
        k = k + 1;
        ptr = next;
    }
    proof {
        if exists|c: nat| first_exact_entry(m, first, libname@, c) {
            let c = exact_entry_index(m, libname@);
            if c < limit {
                assert(entry_name(m, entry_after(m, first, c)->0 as int) != libname@);
            }
        }
    }
    false
}

/// Sets the base address recorded in the entry of the module `libname`
/// (case ignored) where that entry is among the first `limit` entries and
/// every entry up to it can be loaded; otherwise changes nothing. Returns
/// whether it set the base.
pub fn try_update_ldr_entry_base(libname: &str, base: u64, emu: &mut Emu, limit: u64) -> (r: bool)
    ensures
        r == (entry_named_in_list(old(emu).maps@, libname@) && named_entry_index(
            old(emu).maps@,
            libname@,
        ) < limit),
        r ==> final(emu).maps@ == write_u64(
            old(emu).maps@,
            named_entry(old(emu).maps@, libname@) + 0x30,
            base,
        ),
        !r ==> final(emu).maps@ == old(emu).maps@,
        final(emu).regs == old(emu).regs,
{
    let ghost m = emu.maps@;
    if !list_can_open(emu) {
        return false;
    }
    let lower = to_lowercase(libname);
    let first = first_entry_of(emu);
    let mut ptr = first;
    let mut k: u64 = 0;
    assert(entry_after(m, first, 0) == Some(first));
    while k < limit
        invariant
            m == emu.maps@,
            *emu == *old(emu),
            can_open(m),
            first == first_entry(m),
            lower@ == lowercase(libname@),
            k <= limit,
            entry_after(m, first, k as nat) == Some(ptr),
            forall|j: nat| j < k ==> entry_loadable(m, (#[trigger] entry_after(m, first, j))->0 as int),
            forall|j: nat|
                j < k ==> lowercase(entry_name(m, (#[trigger] entry_after(m, first, j))->0 as int))
                    != lowercase(libname@),
        decreases limit - k,
    {
        if !entry_is_loadable(emu, ptr) {
            proof {
                assert forall|c: nat| !first_named_entry(m, first, libname@, c) by {
                    if first_named_entry(m, first, libname@, c) {
                        if c < k {
                            assert(lowercase(entry_name(m, entry_after(m, first, c)->0 as int))
                                != lowercase(libname@));
                        } else {
                            assert(entry_loadable(m, entry_after(m, first, k as nat)->0 as int));
                        }
                    }
                }
            }
            return false;
        }
        let name_ptr = match emu.maps.read_qword(ptr + 0x50) {
            Some(v) => v,
            None => {
                proof {
                    assert(false);
                }
                0
            },
        };
        let name = emu.maps.read_wide_string(name_ptr);
        let lname = to_lowercase(name.as_str());
        if lname == lower {
            proof {
                let kk = k as nat;
                assert(first_named_entry(m, first, libname@, kk));
                let c = named_entry_index(m, libname@);
                assert(first_named_entry(m, first, libname@, c));
                if c < kk {
                    assert(lowercase(entry_name(m, entry_after(m, first, c)->0 as int)) != lowercase(
                        libname@,
                    ));
                } else if kk < c {
                    assert(lowercase(entry_name(m, entry_after(m, first, kk)->0 as int)) != lowercase(
                        libname@,
                    ));
                }
            }
            update_ldr_entry_base(libname, base, emu);
            return true;
        }
        let next = match emu.maps.read_qword(ptr) {
            Some(v) => v,
            None => {
                proof {
                    assert forall|c: nat| !first_named_entry(m, first, libname@, c) by {
                        if first_named_entry(m, first, libname@, c) {
                            if c <= k {
                                assert(lowercase(entry_name(m, entry_after(m, first, c)->0 as int))
                                    != lowercase(libname@));
                            } else {
                                lemma_entry_after_prefix(m, first, (k + 1) as nat, c);
                            }
                        }
                    }
                }
                return false;
            },
        };
        assert(entry_after(m, first, (k + 1) as nat) == Some(next));
        k = k + 1;
        ptr = next;
    }
    proof {
        if exists|c: nat| first_named_entry(m, first, libname@, c) {
            let c = named_entry_index(m, libname@);
            if c < limit {
                assert(lowercase(entry_name(m, entry_after(m, first, c)->0 as int)) != lowercase(
                    libname@,
                ));
            }
        }
    }
    false
}

/// Looks the module `libname` up where the load-order list can be walked
/// and closes within `limit` entries: `Some` of what `get_module_base`
/// answers; `None`, without a lookup, otherwise.
pub fn try_get_module_base(libname: &str, emu: &mut Emu, limit: u64) -> (r: Option<Option<u64>>)
    ensures
        r matches Some(found) ==> list_walkable(old(emu).maps@) && found == find_module(
            old(emu).maps@,
            libname@,
        ),
        r is None ==> !can_open(old(emu).maps@) || forall|n: nat|
            1 <= n <= limit ==> !ring_of_length(old(emu).maps@, first_entry(old(emu).maps@), n),
        *final(emu) == *old(emu),
{
    match load_order_length(emu, limit) {
        Some(_) => {
            proof {
                lemma_walkable_list_lookup_ends(emu.maps@, libname@);
            }
            Some(get_module_base(libname, emu))
        },
        None => None,
    }
}

} // verus!
