//! What the loader's structures promise once built: a created entry reads
//! back as it was made, a linked module sits between the last and the first
//! entry, and a fresh PEB leads to a load-order list of the main module.
use crate::emu::maps::{
    first_fit, group_memory_laws, holder, lemma_first_fit_fits, lemma_fresh_map_read, lemma_free_part,
    lemma_wide_bytes_unit, lemma_wide_string_read_back, plain_wide, read_bytes, read_u16, read_u64,
    fits, group_overwrite_laws, is_free, is_lowest_fit, lemma_first_fit_is, lemma_write_is_free, lemma_first_fit_push_outside, lemma_holder, lemma_named_push,
    lemma_push_not_holding, lemma_read_after_push, lemma_u64_read_after_write, named, read_u32,
    wide_bytes, wide_code, write_u64, writable, MemView,
    ALLOC64_MAX, ALLOC64_MIN, LIB64_MAX, LIB64_MIN,
};
use crate::emu::structures::{PEB64_SIZE, PEB_LDR_DATA64_SIZE};
use crate::emu::text::{
    ascii_lower_char, ascii_lowercase, ascii_only, ascii_upper_char, ascii_uppercase, ends_with,
    lowercase,
};
use crate::emu::peb64::{
    after_create_ldr_entry, after_init_ldr, after_init_peb, after_link_module, can_create_ldr_entry,
    can_init_ldr, can_init_peb, can_link_module, can_open, entry_address, entry_after, entry_base,
    entry_loadable, entry_map, entry_name, entry_space, find_module, first_entry, lookup_ends,
    lookup_length, lookup_walk,
    fresh_map, last_entry, ldr_address, ldr_of, list_length, named_entry, entry_named_in_list,
    first_named_entry, found_module, lemma_lookup_walk_unique, lemma_walk_within_ring,
    lemma_walkable_list_lookup_ends_lowered, list_walkable, module_matches, name_answers, peb_address,
    with_dll,
    ring_of_length, with_ldr_map,
};
use crate::emu::structures::LDR_DATA_TABLE_ENTRY64_SIZE;
use vstd::bytes::{
    lemma_auto_spec_u32_to_from_le_bytes, lemma_auto_spec_u64_to_from_le_bytes, spec_u64_to_le_bytes,
};
use vstd::prelude::*;

verus! {

/// The map of a new entry is the only one holding any part of it, both
/// right after it is added and after any writes.
proof fn lemma_entry_map_holds(m: Seq<MemView>, libname: Seq<char>, x: int, n: int)
    requires
        first_fit(m, entry_space(), ALLOC64_MIN as int, ALLOC64_MAX as int) is Some,
        entry_address(m) <= x,
        x + n <= entry_address(m) + entry_space(),
        0 < n,
    ensures
        holder(m.push(entry_map(libname, entry_address(m) as int)), x, n) == Some(m.len() as int),
        read_bytes(m.push(entry_map(libname, entry_address(m) as int)), x, n) == Some(
            entry_map(libname, entry_address(m) as int).slice(x, n),
        ),
{
    lemma_first_fit_fits(m, entry_space(), ALLOC64_MIN as int, ALLOC64_MAX as int);
    lemma_free_part(m, entry_address(m) as int, entry_space(), x, n);
    lemma_fresh_map_read(m, entry_map(libname, entry_address(m) as int), x, n);
}

/// A created loader entry reads back as it was made: its links in the three
/// lists (between `prev` and `next`, or to itself where `next` is `0`), its
/// module base, the address of its name, the name's UTF-16 units, and, where
/// the name is written as plain UTF-16 units, the name itself.
#[verifier::spinoff_prover]
#[verifier::rlimit(80)]
pub proof fn lemma_created_entry_reads_back(
    m: Seq<MemView>,
    base: u64,
    entry_point: u64,
    libname: Seq<char>,
    next: u64,
    prev: u64,
)
    requires
        can_create_ldr_entry(m, libname, next, prev),
    ensures
        ({
            let mm = after_create_ldr_entry(m, base, entry_point, libname, next, prev);
            let a = entry_address(m);
            &&& read_u64(mm, a as int) == Some(if next != 0 { next } else { a })
            &&& read_u64(mm, a + 8) == Some(if next != 0 { prev } else { a })
            &&& read_u64(mm, a + 0x10) == Some(
                if next != 0 { (prev + 0x10) as u64 } else { (a + 0x10) as u64 },
            )
            &&& read_u64(mm, a + 0x18) == Some(
                if next != 0 { (next + 0x10) as u64 } else { (a + 0x10) as u64 },
            )
            &&& read_u64(mm, a + 0x20) == Some(
                if next != 0 { (next + 0x20) as u64 } else { (a + 0x20) as u64 },
            )
            &&& read_u64(mm, a + 0x28) == Some(
                if next != 0 { (prev + 0x20) as u64 } else { (a + 0x20) as u64 },
            )
            &&& read_u64(mm, a + 0x30) == Some(base)
            &&& entry_base(mm, a as int) == base
            &&& read_u64(mm, a + 0x50) == Some((a + LDR_DATA_TABLE_ENTRY64_SIZE) as u64)
            &&& (plain_wide(libname) ==> entry_name(mm, a as int) == libname)
            &&& forall|i: int|
                0 <= i <= libname.len() ==> read_u16(mm, a + LDR_DATA_TABLE_ENTRY64_SIZE + 2 * i)
                    == Some(wide_code(#[trigger] libname.push('\0')[i]))
        }),
{
    broadcast use group_memory_laws;

    lemma_auto_spec_u64_to_from_le_bytes();
    lemma_auto_spec_u32_to_from_le_bytes();
    lemma_first_fit_fits(m, entry_space(), ALLOC64_MIN as int, ALLOC64_MAX as int);
    let a = entry_address(m) as int;
    let mm = after_create_ldr_entry(m, base, entry_point, libname, next, prev);
    lemma_entry_map_holds(m, libname, a, 8);
    lemma_entry_map_holds(m, libname, a + 8, 8);
    lemma_entry_map_holds(m, libname, a + 0x10, 8);
    lemma_entry_map_holds(m, libname, a + 0x18, 8);
    lemma_entry_map_holds(m, libname, a + 0x20, 8);
    lemma_entry_map_holds(m, libname, a + 0x28, 8);
    lemma_entry_map_holds(m, libname, a + 0x30, 8);
    lemma_entry_map_holds(m, libname, a + 0x50, 8);
    assert(read_u64(mm, a) == Some(if next != 0 { next } else { a as u64 }));
    assert(read_u64(mm, a + 8) == Some(if next != 0 { prev } else { a as u64 }));
    assert(read_u64(mm, a + 0x30) == Some(base));
    assert(read_u64(mm, a + 0x50) == Some((a + LDR_DATA_TABLE_ENTRY64_SIZE) as u64));
    let name_at = a + LDR_DATA_TABLE_ENTRY64_SIZE;
    let s = libname.push('\0');
    assert forall|i: int| 0 <= i <= libname.len() implies read_u16(mm, name_at + 2 * i) == Some(
        wide_code(#[trigger] s[i]),
    ) by {
        lemma_entry_map_holds(m, libname, name_at + 2 * i, 2);
        lemma_wide_bytes_unit(s, i);
        assert(entry_map(libname, a).slice(name_at + 2 * i, 2) =~= wide_bytes(s).subrange(
            2 * i,
            2 * i + 2,
        ));
    }
    assert forall|i: int| 0 <= i < libname.len() implies read_u16(mm, name_at + 2 * i) == Some(
        wide_code(#[trigger] libname[i]),
    ) by {
        assert(s[i] == libname[i]);
    }
    assert(s[libname.len() as int] == '\0');
    assert(wide_code('\0') == 0u16);
    if plain_wide(libname) {
        lemma_wide_string_read_back(mm, name_at, libname);
    }
}

/// A range that some map holds lies outside any range free of maps.
proof fn lemma_held_outside_free(m: Seq<MemView>, x: int, n: int, s: int, len: int)
    requires
        holder(m, x, n) is Some,
        is_free(m, s, len),
        0 < n,
    ensures
        x + n <= s || s + len <= x,
{
    lemma_holder(m, x, n);
    let i = holder(m, x, n)->0;
    assert(!m[i].overlaps(s, len));
}

/// Whether the 8 bytes at `x` are held by a map and so outside the new
/// entry's room, and still held once the entry is created.
#[verifier::spinoff_prover]
#[verifier::rlimit(80)]
proof fn lemma_old_range_kept(
    m: Seq<MemView>,
    base: u64,
    entry_point: u64,
    libname: Seq<char>,
    next: u64,
    prev: u64,
    x: int,
)
    requires
        can_create_ldr_entry(m, libname, next, prev),
        read_u64(m, x) is Some,
    ensures
        x + 8 <= entry_address(m) || entry_address(m) + entry_space() <= x,
        holder(after_create_ldr_entry(m, base, entry_point, libname, next, prev), x, 8) == holder(m, x, 8),
        read_bytes(after_create_ldr_entry(m, base, entry_point, libname, next, prev), x, 8) == read_bytes(m, x, 8),
{
    broadcast use group_memory_laws;

    lemma_auto_spec_u64_to_from_le_bytes();
    lemma_auto_spec_u32_to_from_le_bytes();
    lemma_first_fit_fits(m, entry_space(), ALLOC64_MIN as int, ALLOC64_MAX as int);
    let a = entry_address(m) as int;
    lemma_held_outside_free(m, x, 8, a, entry_space());
    lemma_read_after_push(m, entry_map(libname, a), x, 8);
}

/// A module linked in dynamically sits between the last and the first
/// entry of the load-order list: its entry leads forward to the first and
/// back to the last, the last leads forward to it and the first back to it,
/// and it holds the module's base and name. This holds where the links
/// that are rewritten lie in mapped memory and the first and last entries
/// do not share their link fields.
#[verifier::spinoff_prover]
#[verifier::rlimit(80)]
pub proof fn lemma_linked_module_between_last_and_first(
    m: Seq<MemView>,
    base: u64,
    pe_off: u32,
    libname: Seq<char>,
)
    requires
        can_link_module(m, libname),
        plain_wide(libname),
        first_entry(m) != 0,
        read_u64(m, last_entry(m) as int) is Some,
        read_u64(m, last_entry(m) + 0x10) is Some,
        read_u64(m, last_entry(m) + 0x20) is Some,
        read_u64(m, first_entry(m) + 8) is Some,
        read_u64(m, first_entry(m) + 0x18) is Some,
        read_u64(m, first_entry(m) + 0x28) is Some,
        first_entry(m) == last_entry(m) || first_entry(m) + 0x30 <= last_entry(m)
            || last_entry(m) + 0x30 <= first_entry(m),
    ensures
        ({
            let mm = after_link_module(m, base, pe_off, libname);
            let space = entry_address(m);
            &&& read_u64(mm, space as int) == Some(first_entry(m))
            &&& read_u64(mm, space + 8) == Some(last_entry(m))
            &&& read_u64(mm, last_entry(m) as int) == Some(space)
            &&& read_u64(mm, first_entry(m) + 8) == Some(space)
            &&& entry_base(mm, space as int) == base
            &&& entry_name(mm, space as int) == libname
        }),
{
    broadcast use group_memory_laws;

    lemma_auto_spec_u64_to_from_le_bytes();
    let first = first_entry(m);
    let last = last_entry(m);
    let space = entry_address(m);
    let ep = pe_off as u64;
    lemma_created_entry_reads_back(m, base, ep, libname, first, last);
    lemma_old_range_kept(m, base, ep, libname, first, last, last as int);
    lemma_old_range_kept(m, base, ep, libname, first, last, last + 0x10);
    lemma_old_range_kept(m, base, ep, libname, first, last, last + 0x20);
    lemma_old_range_kept(m, base, ep, libname, first, last, first + 8);
    lemma_old_range_kept(m, base, ep, libname, first, last, first + 0x18);
    lemma_old_range_kept(m, base, ep, libname, first, last, first + 0x28);
    lemma_first_fit_fits(m, entry_space(), ALLOC64_MIN as int, ALLOC64_MAX as int);
    let mm = after_link_module(m, base, pe_off, libname);
    let m1 = after_create_ldr_entry(m, base, ep, libname, first, last);
    assert(read_u64(mm, space as int) == Some(first));
    assert(read_u64(mm, space + 8) == Some(last));
    assert(read_u64(mm, space + 0x30) == Some(base));
    assert(read_u64(mm, space + 0x50) == read_u64(m1, space + 0x50));
    assert(read_u64(mm, last as int) == Some(space));
    assert(read_u64(mm, first + 8) == Some(space));
    let name_at = space + LDR_DATA_TABLE_ENTRY64_SIZE;
    let s = libname.push('\0');
    assert forall|i: int| 0 <= i <= libname.len() implies read_u16(mm, name_at + 2 * i) == Some(
        wide_code(#[trigger] s[i]),
    ) by {
        assert(read_u16(m1, name_at + 2 * i) == Some(wide_code(s[i])));
    }
    assert forall|i: int| 0 <= i < libname.len() implies read_u16(mm, name_at + 2 * i) == Some(
        wide_code(#[trigger] libname[i]),
    ) by {
        assert(s[i] == libname[i]);
    }
    assert(s[libname.len() as int] == '\0');
    assert(wide_code('\0') == 0u16);
    lemma_wide_string_read_back(mm, name_at, libname);
}

/// The characters of the main module's name are plain UTF-16 units.
proof fn lemma_main_module_name()
    ensures
        plain_wide("loader.exe"@),
        "loader.exe"@.len() == 10,
        ("loader.exe"@ + ".ldr"@) != "peb"@,
        "ldr"@ != "peb"@,
{
    reveal_strlit("loader.exe");
    reveal_strlit(".ldr");
    reveal_strlit("ldr");
    reveal_strlit("peb");
    assert(("loader.exe"@ + ".ldr"@).len() != "peb"@.len());
    assert("ldr"@[0] != "peb"@[0]);
}

/// What setting the loader data up leaves: the head of the load-order list
/// holds the main module's entry, which links to itself, has base `0` and
/// the name `loader.exe`; no map is added at low addresses or under the
/// name `peb`.
#[verifier::spinoff_prover]
#[verifier::rlimit(80)]
proof fn lemma_init_ldr_reads(m: Seq<MemView>)
    requires
        can_init_ldr(m),
    ensures
        ({
            let m1 = with_ldr_map(m);
            let la = ldr_address(m) as int;
            let e = entry_address(m1) as int;
            let mm = after_init_ldr(m);
            let s = "loader.exe"@.push('\0');
            &&& LIB64_MIN <= la && la + PEB_LDR_DATA64_SIZE <= LIB64_MAX
            &&& ALLOC64_MIN <= e && e + entry_space() <= ALLOC64_MAX
            &&& read_u64(mm, la + 0x10) == Some(e as u64)
            &&& read_u64(mm, e) == Some(e as u64)
            &&& read_u64(mm, e + 0x30) == Some(0u64)
            &&& read_u64(mm, e + 0x50) == Some((e + LDR_DATA_TABLE_ENTRY64_SIZE) as u64)
            &&& forall|i: int|
                0 <= i <= 10 ==> read_u16(mm, e + LDR_DATA_TABLE_ENTRY64_SIZE + 2 * i) == Some(
                    wide_code(#[trigger] s[i]),
                )
            &&& (read_u32(m, 0x3c) is None ==> read_u32(mm, 0x3c) is None)
            &&& (named(m, "peb"@) is None ==> named(mm, "peb"@) is None)
        }),
{
    broadcast use group_memory_laws;

    lemma_auto_spec_u64_to_from_le_bytes();
    lemma_auto_spec_u32_to_from_le_bytes();
    lemma_main_module_name();
    let la = ldr_address(m) as int;
    let lr = fresh_map("ldr"@, la, PEB_LDR_DATA64_SIZE as nat);
    let m1 = with_ldr_map(m);
    lemma_first_fit_fits(m, PEB_LDR_DATA64_SIZE as int, LIB64_MIN as int, LIB64_MAX as int);
    lemma_first_fit_push_outside(m, lr, entry_space(), ALLOC64_MIN as int, ALLOC64_MAX as int);
    lemma_first_fit_fits(m1, entry_space(), ALLOC64_MIN as int, ALLOC64_MAX as int);
    let e = entry_address(m1) as int;
    let m2 = after_create_ldr_entry(m1, 0, 0, "loader.exe"@, 0, 0);
    let mm = after_init_ldr(m);
    lemma_created_entry_reads_back(m1, 0, 0, "loader.exe"@, 0, 0);
    // The loader data's map alone holds its bytes, before and after the entry is created.
    lemma_fresh_map_read(m, lr, la + 0x10, 8);
    lemma_old_range_kept(m1, 0, 0, "loader.exe"@, 0, 0, la + 0x10);
    lemma_fresh_map_read(m, lr, la, PEB_LDR_DATA64_SIZE as int);
    lemma_held_outside_free(m1, la, PEB_LDR_DATA64_SIZE as int, e, entry_space());
    assert(read_u64(mm, la + 0x10) == Some(e as u64));
    assert(read_u64(mm, e) == Some(e as u64));
    assert(read_u64(mm, e + 0x30) == Some(0u64));
    assert(read_u64(mm, e + 0x50) == Some((e + LDR_DATA_TABLE_ENTRY64_SIZE) as u64));
    let s = "loader.exe"@.push('\0');
    assert forall|i: int| 0 <= i <= 10 implies read_u16(mm, e + LDR_DATA_TABLE_ENTRY64_SIZE + 2 * i)
        == Some(wide_code(#[trigger] s[i])) by {
        assert(read_u16(m2, e + LDR_DATA_TABLE_ENTRY64_SIZE + 2 * i) == Some(wide_code(s[i])));
    }
    if read_u32(m, 0x3c) is None {
        lemma_push_not_holding(m, lr, 0x3c, 4);
        lemma_push_not_holding(m1, entry_map("loader.exe"@, e), 0x3c, 4);
    }
    if named(m, "peb"@) is None {
        lemma_named_push(m, lr, "peb"@);
        lemma_named_push(m1, entry_map("loader.exe"@, e), "peb"@);
    }
}

/// After the loader data is set up, each of its list heads, forward and
/// backward link alike, points at the matching links of the main module's
/// entry: the load-order list at the entry, the memory-order list at its
/// `+0x10`, the initialization-order list at its `+0x20`, and the entry in
/// progress at the entry; the entry's own links in the three lists point at
/// themselves, so each list is a ring of that one entry.
#[verifier::spinoff_prover]
#[verifier::rlimit(80)]
pub proof fn lemma_loader_lists_hold_main_entry(m: Seq<MemView>)
    requires
        can_init_ldr(m),
    ensures
        ({
            let la = ldr_address(m) as int;
            let e = entry_address(with_ldr_map(m));
            let mm = after_init_ldr(m);
            &&& read_u64(mm, la + 0x10) == Some(e)
            &&& read_u64(mm, la + 0x18) == Some(e)
            &&& read_u64(mm, la + 0x20) == Some((e + 0x10) as u64)
            &&& read_u64(mm, la + 0x28) == Some((e + 0x10) as u64)
            &&& read_u64(mm, la + 0x30) == Some((e + 0x20) as u64)
            &&& read_u64(mm, la + 0x38) == Some((e + 0x20) as u64)
            &&& read_u64(mm, la + 0x40) == Some(e)
            &&& read_u64(mm, la + 0x48) == Some(e)
            &&& read_u64(mm, e as int) == Some(e)
            &&& read_u64(mm, e + 8) == Some(e)
            &&& read_u64(mm, e + 0x10) == Some((e + 0x10) as u64)
            &&& read_u64(mm, e + 0x18) == Some((e + 0x10) as u64)
            &&& read_u64(mm, e + 0x20) == Some((e + 0x20) as u64)
            &&& read_u64(mm, e + 0x28) == Some((e + 0x20) as u64)
        }),
{
    broadcast use group_memory_laws;

    lemma_auto_spec_u64_to_from_le_bytes();
    lemma_auto_spec_u32_to_from_le_bytes();
    lemma_main_module_name();
    let la = ldr_address(m) as int;
    let lr = fresh_map("ldr"@, la, PEB_LDR_DATA64_SIZE as nat);
    let m1 = with_ldr_map(m);
    lemma_first_fit_fits(m, PEB_LDR_DATA64_SIZE as int, LIB64_MIN as int, LIB64_MAX as int);
    lemma_first_fit_push_outside(m, lr, entry_space(), ALLOC64_MIN as int, ALLOC64_MAX as int);
    lemma_first_fit_fits(m1, entry_space(), ALLOC64_MIN as int, ALLOC64_MAX as int);
    let e = entry_address(m1) as int;
    lemma_created_entry_reads_back(m1, 0, 0, "loader.exe"@, 0, 0);
    lemma_fresh_map_read(m, lr, la + 0x10, 8);
    lemma_old_range_kept(m1, 0, 0, "loader.exe"@, 0, 0, la + 0x10);
    lemma_fresh_map_read(m, lr, la + 0x18, 8);
    lemma_old_range_kept(m1, 0, 0, "loader.exe"@, 0, 0, la + 0x18);
    lemma_fresh_map_read(m, lr, la + 0x20, 8);
    lemma_old_range_kept(m1, 0, 0, "loader.exe"@, 0, 0, la + 0x20);
    lemma_fresh_map_read(m, lr, la + 0x28, 8);
    lemma_old_range_kept(m1, 0, 0, "loader.exe"@, 0, 0, la + 0x28);
    lemma_fresh_map_read(m, lr, la + 0x30, 8);
    lemma_old_range_kept(m1, 0, 0, "loader.exe"@, 0, 0, la + 0x30);
    lemma_fresh_map_read(m, lr, la + 0x38, 8);
    lemma_old_range_kept(m1, 0, 0, "loader.exe"@, 0, 0, la + 0x38);
    lemma_fresh_map_read(m, lr, la + 0x40, 8);
    lemma_old_range_kept(m1, 0, 0, "loader.exe"@, 0, 0, la + 0x40);
    lemma_fresh_map_read(m, lr, la + 0x48, 8);
    lemma_old_range_kept(m1, 0, 0, "loader.exe"@, 0, 0, la + 0x48);
    lemma_fresh_map_read(m, lr, la, PEB_LDR_DATA64_SIZE as int);
    lemma_held_outside_free(m1, la, PEB_LDR_DATA64_SIZE as int, e, entry_space());
}

/// The PEB's map changes no read of what the loader data set up.
#[verifier::spinoff_prover]
#[verifier::rlimit(80)]
proof fn lemma_peb_map_kept(m: Seq<MemView>, x: int, n: int)
    requires
        can_init_peb(m),
        holder(after_init_ldr(m), x, n) is Some,
        0 < n,
    ensures
        holder(after_init_peb(m), x, n) == holder(after_init_ldr(m), x, n),
        read_bytes(after_init_peb(m), x, n) == read_bytes(after_init_ldr(m), x, n),
{
    broadcast use group_memory_laws;

    let m3 = after_init_ldr(m);
    let pp = peb_address(m) as int;
    lemma_first_fit_fits(m3, PEB64_SIZE as int, LIB64_MIN as int, LIB64_MAX as int);
    let pr = crate::emu::structures::save_peb(
        fresh_map("peb"@, pp, PEB64_SIZE as nat),
        crate::emu::structures::peb64_value(0, ldr_address(m), 0x521e20),
    );
    lemma_read_after_push(m3, pr, x, n);
    lemma_held_outside_free(m3, x, n, pp, PEB64_SIZE as int);
}

/// A PEB set up on a memory with no map named `peb` and nothing mapped at
/// `0x3c` leads to a load-order list that can be walked and holds just the
/// main module, `loader.exe`, at base `0`, which a lookup by that name finds.
#[verifier::spinoff_prover]
#[verifier::rlimit(80)]
pub proof fn lemma_fresh_peb_lists_main_module(m: Seq<MemView>)
    requires
        can_init_peb(m),
        named(m, "peb"@) is None,
        read_u32(m, 0x3c) is None,
    ensures
        ({
            let mm = after_init_peb(m);
            let e = entry_address(with_ldr_map(m));
            &&& can_open(mm)
            &&& first_entry(mm) == e
            &&& ring_of_length(mm, e, 1)
            &&& list_walkable(mm)
            &&& list_length(mm) == 1
            &&& entry_base(mm, e as int) == 0
            &&& entry_name(mm, e as int) == "loader.exe"@
            &&& lookup_ends(mm, "loader.exe"@)
            &&& find_module(mm, "loader.exe"@) == Some(0u64)
        }),
{
    broadcast use group_memory_laws, group_overwrite_laws;

    lemma_auto_spec_u64_to_from_le_bytes();
    lemma_auto_spec_u32_to_from_le_bytes();
    lemma_main_module_name();
    lemma_init_ldr_reads(m);
    let m3 = after_init_ldr(m);
    let la = ldr_address(m) as int;
    let e = entry_address(with_ldr_map(m)) as int;
    let pp = peb_address(m) as int;
    lemma_first_fit_fits(m3, PEB64_SIZE as int, LIB64_MIN as int, LIB64_MAX as int);
    let pr = crate::emu::structures::save_peb(
        fresh_map("peb"@, pp, PEB64_SIZE as nat),
        crate::emu::structures::peb64_value(0, ldr_address(m), 0x521e20),
    );
    let m4 = m3.push(pr);
    let mm = after_init_peb(m);
    // The PEB's map: found by name, alone where it lies.
    lemma_named_push(m3, pr, "peb"@);
    lemma_fresh_map_read(m3, pr, pp + 2, 1);
    let idx = m3.len() as int;
    assert(named(mm, "peb"@) == Some(idx));
    assert(mm[idx] == pr.overwrite(pp + 2, seq![0u8]));
    assert(mm[idx].slice(pp + 0x18, 8) == spec_u64_to_le_bytes(ldr_address(m)));
    assert(ldr_of(mm) == la);
    // What the loader data set up is still there.
    lemma_peb_map_kept(m, la + 0x10, 8);
    lemma_peb_map_kept(m, e, 8);
    lemma_peb_map_kept(m, e + 0x30, 8);
    lemma_peb_map_kept(m, e + 0x50, 8);
    assert(can_open(mm));
    assert(first_entry(mm) == e);
    assert(entry_after(mm, e as u64, 0) == Some(e as u64));
    assert(entry_after(mm, e as u64, 1) == Some(e as u64));
    lemma_push_not_holding(m3, pr, 0x3c, 4);
    assert(read_u32(mm, 0x3c) is None);
    assert(entry_loadable(mm, e));
    assert(ring_of_length(mm, e as u64, 1));
    assert(list_walkable(mm));
    let n = list_length(mm);
    assert(ring_of_length(mm, e as u64, n));
    if n != 1 {
        assert(entry_after(mm, e as u64, 1) != Some(e as u64));
    }
    let name_at = e + LDR_DATA_TABLE_ENTRY64_SIZE;
    let lib = "loader.exe"@;
    let sz = lib.push('\0');
    assert forall|i: int| 0 <= i < lib.len() implies read_u16(mm, name_at + 2 * i) == Some(
        wide_code(#[trigger] lib[i]),
    ) by {
        assert(read_u16(m3, name_at + 2 * i) == Some(wide_code(sz[i])));
        lemma_peb_map_kept(m, name_at + 2 * i, 2);
        assert(sz[i] == lib[i]);
    }
    assert(read_u16(m3, name_at + 2 * 10) == Some(wide_code(sz[10])));
    lemma_peb_map_kept(m, name_at + 2 * 10, 2);
    assert(sz[10] == '\0');
    assert(wide_code('\0') == 0u16);
    lemma_wide_string_read_back(mm, name_at, lib);
    assert(entry_name(mm, e) == lib);
    assert(module_matches(lib, entry_name(mm, e)));
    let low = lowercase(lib);
    assert(lookup_walk(mm, e as u64, low, 1));
    let ln = lookup_length(mm, low);
    assert(lookup_walk(mm, e as u64, low, ln));
    crate::emu::peb64::lemma_lookup_walk_unique(mm, e as u64, low, 1, ln);
    assert(lookup_ends(mm, lib));
}

/// A module base set in an entry reads back as the entry's base: what
/// `Flink::set_mod_base` writes, `Flink::get_mod_base` reads.
pub proof fn lemma_set_mod_base_reads_back(m: Seq<MemView>, ptr: u64, base: u64)
    requires
        writable(m, ptr + 0x30, 8),
    ensures
        entry_base(write_u64(m, ptr + 0x30, base), ptr as int) == base,
        read_u64(write_u64(m, ptr + 0x30, base), ptr + 0x30) == Some(base),
{
    lemma_u64_read_after_write(m, ptr + 0x30, base);
}

/// After `update_ldr_entry_base`, the entry of the module holds the new base.
pub proof fn lemma_updated_entry_base(m: Seq<MemView>, libname: Seq<char>, base: u64)
    requires
        entry_named_in_list(m, libname),
    ensures
        entry_base(write_u64(m, named_entry(m, libname) + 0x30, base), named_entry(m, libname) as int)
            == base,
{
    let k = choose|k: nat| first_named_entry(m, first_entry(m), libname, k);
    assert(entry_loadable(m, entry_after(m, first_entry(m), k)->0 as int));
    lemma_set_mod_base_reads_back(m, named_entry(m, libname), base);
}

/// After `update_peb_image_base`, the PEB holds the new image base at `0x10`.
pub proof fn lemma_peb_image_base_reads_back(m: Seq<MemView>, base: u64)
    requires
        named(m, "peb"@) is Some,
        m[named(m, "peb"@)->0].holds(m[named(m, "peb"@)->0].base + 0x10, 8),
    ensures
        ({
            let at = m[named(m, "peb"@)->0].base + 0x10;
            read_u64(write_u64(m, at, base), at) == Some(base)
        }),
{
    let at = m[named(m, "peb"@)->0].base + 0x10;
    crate::emu::maps::lemma_named_from(m, "peb"@, 0);
    lemma_holder(m, at, 8);
    lemma_u64_read_after_write(m, at, base);
}

/// Module lookup ignores case: names that lower-case alike find the same
/// module.
pub proof fn lemma_lookup_ignores_case(m: Seq<MemView>, l1: Seq<char>, l2: Seq<char>)
    requires
        lowercase(l1) == lowercase(l2),
        lookup_ends(m, l1),
    ensures
        lookup_ends(m, l2),
        find_module(m, l1) == find_module(m, l2),
{
}

/// An all-ASCII name looks up the same module in capitals, in small
/// letters, and as it is: `get_module_base` goes by the name with `A`-`Z`
/// made `a`-`z`, and the three names agree in that form.
pub proof fn lemma_ascii_case_variants_look_up_alike(m: Seq<MemView>, s: Seq<char>)
    requires
        ascii_only(s),
    ensures
        ascii_only(ascii_uppercase(s)),
        ascii_only(ascii_lowercase(s)),
        ascii_lowercase(ascii_uppercase(s)) == ascii_lowercase(s),
        ascii_lowercase(ascii_lowercase(s)) == ascii_lowercase(s),
        found_module(m, ascii_lowercase(ascii_uppercase(s))) == found_module(m, ascii_lowercase(s)),
        found_module(m, ascii_lowercase(ascii_lowercase(s))) == found_module(m, ascii_lowercase(s)),
{
    assert forall|i: int| 0 <= i < s.len() implies ascii_lower_char(ascii_upper_char(s[i]))
        == ascii_lower_char(s[i]) && ascii_lower_char(ascii_lower_char(s[i])) == ascii_lower_char(s[i])
        && (ascii_upper_char(s[i]) as u32) < 0x80 && (ascii_lower_char(s[i]) as u32) < 0x80 by {
        let c = s[i];
        let x = c as u32;
        if 0x61 <= x && x <= 0x7a {
            assert(((x - 0x20) as char) as u32 == x - 0x20);
            assert(((x as char) as u32) == x);
        }
        if 0x41 <= x && x <= 0x5a {
            assert(((x + 0x20) as char) as u32 == x + 0x20);
        }
    }
    assert(ascii_lowercase(ascii_uppercase(s)) =~= ascii_lowercase(s));
    assert(ascii_lowercase(ascii_lowercase(s)) =~= ascii_lowercase(s));
}

/// A lookup by a lower-cased name that does not end with `.dll` finds what
/// the lookup by that name with `.dll` added finds, where no module of a
/// walkable list bears the name without `.dll`.
proof fn lemma_dll_suffix_lowered(m: Seq<MemView>, low: Seq<char>)
    requires
        list_walkable(m),
        !ends_with(low, ".dll"@),
        forall|k: nat|
            k < list_length(m) ==> lowercase(
                entry_name(m, (#[trigger] entry_after(m, first_entry(m), k))->0 as int),
            ) != low,
    ensures
        found_module(m, low) == found_module(m, low + ".dll"@),
{
    reveal_strlit(".dll");
    let low2 = low + ".dll"@;
    assert(with_dll(low) == low2);
    assert(low2.subrange(low2.len() - 4, low2.len() as int) =~= ".dll"@);
    assert(with_dll(low2) == low2);
    let first = first_entry(m);
    let n = list_length(m);
    assert forall|k: nat| k < n implies name_answers(
        low,
        entry_name(m, (#[trigger] entry_after(m, first, k))->0 as int),
    ) == name_answers(low2, entry_name(m, entry_after(m, first, k)->0 as int)) by {}
    lemma_walkable_list_lookup_ends_lowered(m, low);
    lemma_walkable_list_lookup_ends_lowered(m, low2);
    let l1 = crate::emu::peb64::lookup_length(m, low);
    let l2 = crate::emu::peb64::lookup_length(m, low2);
    assert(lookup_walk(m, first, low, l1));
    assert(lookup_walk(m, first, low2, l2));
    lemma_walk_within_ring(m, first, low, l1, n);
    assert(lookup_walk(m, first, low2, l1));
    lemma_lookup_walk_unique(m, first, low2, l1, l2);
}

/// A lookup without `.dll` finds what the lookup with `.dll` added finds,
/// in a list that can be walked, where lower-casing the name with `.dll`
/// gives the lower-cased name with `.dll` (so for every name but one whose
/// lower-casing depends on what follows, as a final capital sigma's does),
/// the lower-cased name does not end with `.dll`, and no module of the list
/// bears it.
pub proof fn lemma_lookup_supplies_dll(m: Seq<MemView>, s: Seq<char>)
    requires
        list_walkable(m),
        lowercase(s + ".dll"@) == lowercase(s) + ".dll"@,
        !ends_with(lowercase(s), ".dll"@),
        forall|k: nat|
            k < list_length(m) ==> lowercase(
                entry_name(m, (#[trigger] entry_after(m, first_entry(m), k))->0 as int),
            ) != lowercase(s),
    ensures
        find_module(m, s) == find_module(m, s + ".dll"@),
{
    lemma_dll_suffix_lowered(m, lowercase(s));
}

/// For an all-ASCII name, which `get_module_base` looks up by its ASCII
/// lower-case form: the lookup without `.dll` finds what the lookup with
/// `.dll` added finds, in a list that can be walked, where the name does
/// not end with `.dll` and no module of the list bears it.
pub proof fn lemma_ascii_lookup_supplies_dll(m: Seq<MemView>, s: Seq<char>)
    requires
        list_walkable(m),
        ascii_only(s),
        !ends_with(ascii_lowercase(s), ".dll"@),
        forall|k: nat|
            k < list_length(m) ==> lowercase(
                entry_name(m, (#[trigger] entry_after(m, first_entry(m), k))->0 as int),
            ) != ascii_lowercase(s),
    ensures
        ascii_only(s + ".dll"@),
        found_module(m, ascii_lowercase(s)) == found_module(m, ascii_lowercase(s + ".dll"@)),
{
    reveal_strlit(".dll");
    let low = ascii_lowercase(s);
    assert(ascii_lowercase(s + ".dll"@) =~= low + ".dll"@);
    assert(ascii_only(s + ".dll"@));
    lemma_dll_suffix_lowered(m, low);
}

/// A fresh process, with no memory yet, can have its PEB set up, and then
/// its load-order list opens on the entry of the main module, `loader.exe`
/// at base `0`, the one entry of the list, at the lowest address of the
/// general allocator; a lookup of `loader.exe` finds it.
pub proof fn lemma_fresh_process_opens_on_main_module()
    ensures
        can_init_peb(Seq::<MemView>::empty()),
        ({
            let mm = after_init_peb(Seq::<MemView>::empty());
            &&& can_open(mm)
            &&& first_entry(mm) == ALLOC64_MIN
            &&& list_walkable(mm)
            &&& list_length(mm) == 1
            &&& entry_base(mm, ALLOC64_MIN as int) == 0
            &&& entry_name(mm, ALLOC64_MIN as int) == "loader.exe"@
            &&& lookup_ends(mm, "loader.exe"@)
            &&& find_module(mm, "loader.exe"@) == Some(0u64)
        }),
{
    broadcast use lemma_write_is_free;

    let m = Seq::<MemView>::empty();
    lemma_first_fit_is(m, LIB64_MIN as int, PEB_LDR_DATA64_SIZE as int, LIB64_MIN as int, LIB64_MAX as int);
    lemma_first_fit_is(m, ALLOC64_MIN as int, entry_space(), ALLOC64_MIN as int, ALLOC64_MAX as int);
    let m1 = with_ldr_map(m);
    assert(m1[0].base == LIB64_MIN);
    assert(is_lowest_fit(m1, ALLOC64_MIN as int, entry_space(), ALLOC64_MIN as int, ALLOC64_MAX as int))
        by {
        assert(!m1[0].overlaps(ALLOC64_MIN as int, entry_space()));
    }
    lemma_first_fit_is(m1, ALLOC64_MIN as int, entry_space(), ALLOC64_MIN as int, ALLOC64_MAX as int);
    let e = entry_address(m1);
    assert(e == ALLOC64_MIN);
    let r = entry_map("loader.exe"@, e as int);
    let m2 = m1.push(r);
    let m3 = after_init_ldr(m);
    let p = LIB64_MIN + PEB_LDR_DATA64_SIZE;
    assert(is_lowest_fit(m2, p, PEB64_SIZE as int, LIB64_MIN as int, LIB64_MAX as int)) by {
        assert(m2[0] == m1[0]);
        assert(m2[1] == r);
        assert forall|b: int| fits(m2, b, PEB64_SIZE as int, LIB64_MIN as int, LIB64_MAX as int) implies p
            <= b by {
            assert(!m2[0].overlaps(b, PEB64_SIZE as int));
        }
    }
    assert forall|b: int, n: int| is_free(m3, b, n) == is_free(m2, b, n) by {}
    assert forall|b: int|
        fits(m3, b, PEB64_SIZE as int, LIB64_MIN as int, LIB64_MAX as int) == fits(
            m2,
            b,
            PEB64_SIZE as int,
            LIB64_MIN as int,
            LIB64_MAX as int,
        ) by {}
    assert(is_lowest_fit(m3, p, PEB64_SIZE as int, LIB64_MIN as int, LIB64_MAX as int));
    lemma_first_fit_is(m3, p, PEB64_SIZE as int, LIB64_MIN as int, LIB64_MAX as int);
    assert(can_init_peb(m));
    assert(named(m, "peb"@) is None);
    crate::emu::maps::lemma_holder(m, 0x3c, 4);
    assert(read_u32(m, 0x3c) is None);
    lemma_fresh_peb_lists_main_module(m);
}

/// Whether any two entries of the load-order list either are the same
/// entry or keep their links (the first `0x30` bytes) apart.
pub open spec fn entries_apart(m: Seq<MemView>) -> bool {
    forall|j1: nat, j2: nat|
        j1 < list_length(m) && j2 < list_length(m) ==> {
            let a = (#[trigger] entry_after(m, first_entry(m), j1))->0 as int;
            let b = (#[trigger] entry_after(m, first_entry(m), j2))->0 as int;
            a == b || a + 0x30 <= b || b + 0x30 <= a
        }
}

/// Whether the links that linking a module rewrites, in the last and the
/// first entry, lie in mapped memory.
pub open spec fn link_fields_mapped(m: Seq<MemView>) -> bool {
    &&& read_u64(m, last_entry(m) as int) is Some
    &&& read_u64(m, last_entry(m) + 0x10) is Some
    &&& read_u64(m, last_entry(m) + 0x20) is Some
    &&& read_u64(m, first_entry(m) + 8) is Some
    &&& read_u64(m, first_entry(m) + 0x18) is Some
    &&& read_u64(m, first_entry(m) + 0x28) is Some
}

/// Whether the 8 bytes at `x` lie apart from the six links that linking a
/// module rewrites.
pub open spec fn apart_from_rewritten_links(m: Seq<MemView>, x: int) -> bool {
    let last = last_entry(m) as int;
    let first = first_entry(m) as int;
    &&& (x + 8 <= last || last + 8 <= x)
    &&& (x + 8 <= last + 0x10 || last + 0x18 <= x)
    &&& (x + 8 <= last + 0x20 || last + 0x28 <= x)
    &&& (x + 8 <= first + 8 || first + 0x10 <= x)
    &&& (x + 8 <= first + 0x18 || first + 0x20 <= x)
    &&& (x + 8 <= first + 0x28 || first + 0x30 <= x)
}

/// Linking a module changes no mapped quad word apart from the links it
/// rewrites.
#[verifier::spinoff_prover]
#[verifier::rlimit(80)]
proof fn lemma_link_keeps(m: Seq<MemView>, base: u64, pe_off: u32, libname: Seq<char>, x: int)
    requires
        can_link_module(m, libname),
        read_u64(m, x) is Some,
        apart_from_rewritten_links(m, x),
    ensures
        read_u64(after_link_module(m, base, pe_off, libname), x) == read_u64(m, x),
{
    broadcast use group_memory_laws;

    lemma_auto_spec_u64_to_from_le_bytes();
    lemma_old_range_kept(m, base, pe_off as u64, libname, first_entry(m), last_entry(m), x);
}

/// What linking a module writes into the memory- and initialization-order
/// links of the last and the first entry.
#[verifier::spinoff_prover]
#[verifier::rlimit(80)]
proof fn lemma_link_order_links(m: Seq<MemView>, base: u64, pe_off: u32, libname: Seq<char>)
    requires
        can_link_module(m, libname),
        first_entry(m) != 0,
        link_fields_mapped(m),
        first_entry(m) == last_entry(m) || first_entry(m) + 0x30 <= last_entry(m)
            || last_entry(m) + 0x30 <= first_entry(m),
    ensures
        ({
            let mm = after_link_module(m, base, pe_off, libname);
            let space = entry_address(m);
            let first = first_entry(m);
            let last = last_entry(m);
            &&& read_u64(mm, last + 0x10) == Some((space + 0x10) as u64)
            &&& read_u64(mm, last + 0x20) == Some((space + 0x20) as u64)
            &&& read_u64(mm, first + 0x18) == Some((space + 0x10) as u64)
            &&& read_u64(mm, first + 0x28) == Some((space + 0x20) as u64)
            &&& read_u64(mm, space + 0x10) == Some((last + 0x10) as u64)
            &&& read_u64(mm, space + 0x18) == Some((first + 0x10) as u64)
            &&& read_u64(mm, space + 0x20) == Some((first + 0x20) as u64)
            &&& read_u64(mm, space + 0x28) == Some((last + 0x20) as u64)
        }),
{
    broadcast use group_memory_laws;

    lemma_auto_spec_u64_to_from_le_bytes();
    let first = first_entry(m);
    let last = last_entry(m);
    let ep = pe_off as u64;
    lemma_created_entry_reads_back(m, base, ep, libname, first, last);
    lemma_old_range_kept(m, base, ep, libname, first, last, last as int);
    lemma_old_range_kept(m, base, ep, libname, first, last, last + 0x10);
    lemma_old_range_kept(m, base, ep, libname, first, last, last + 0x20);
    lemma_old_range_kept(m, base, ep, libname, first, last, first + 8);
    lemma_old_range_kept(m, base, ep, libname, first, last, first + 0x18);
    lemma_old_range_kept(m, base, ep, libname, first, last, first + 0x28);
    lemma_first_fit_fits(m, entry_space(), ALLOC64_MIN as int, ALLOC64_MAX as int);
}

/// The forward links among the old entries are kept: the first `j`
/// entries, `j` below the list's length, are reached as before.
proof fn lemma_link_keeps_prefix(m: Seq<MemView>, base: u64, pe_off: u32, libname: Seq<char>, j: nat)
    requires
        can_link_module(m, libname),
        entries_apart(m),
        j < list_length(m),
    ensures
        entry_after(after_link_module(m, base, pe_off, libname), first_entry(m), j) == entry_after(
            m,
            first_entry(m),
            j,
        ),
    decreases j,
{
    let first = first_entry(m);
    let n = list_length(m);
    let mm = after_link_module(m, base, pe_off, libname);
    assert(ring_of_length(m, first, n));
    if j > 0 {
        let i = (j - 1) as nat;
        lemma_link_keeps_prefix(m, base, pe_off, libname, i);
        crate::emu::peb64::lemma_entry_after_prefix(m, first, j, n);
        crate::emu::peb64::lemma_entry_after_prefix(m, first, (n - 1) as nat, n);
        let x = entry_after(m, first, i)->0 as int;
        let last = last_entry(m) as int;
        assert(x != last) by {
            if x == last {
                assert(entry_after(m, first, j) == read_u64(m, x));
                assert(entry_after(m, first, n) == read_u64(m, last));
                assert(entry_after(m, first, j) != Some(first));
            }
        }
        assert(entry_after(m, first, 0) == Some(first));
        let a1 = entry_after(m, first, i);
        let a2 = entry_after(m, first, (n - 1) as nat);
        let a3 = entry_after(m, first, 0);
        assert(apart_from_rewritten_links(m, x));
        lemma_link_keeps(m, base, pe_off, libname, x);
    }
}

/// Whether each memory- or initialization-order link that linking a module
/// rewrites in the last and the first entry lies in mapped memory or apart
/// from the new entry's load-order links and base (its first `0x38` bytes):
/// an unmapped one would otherwise be written into the new entry.
pub open spec fn rewritten_links_clear(m: Seq<MemView>) -> bool {
    let space = entry_address(m) as int;
    let last = last_entry(m) as int;
    let first = first_entry(m) as int;
    &&& (read_u64(m, last + 0x10) is Some || last + 0x18 <= space || space + 0x38 <= last + 0x10)
    &&& (read_u64(m, last + 0x20) is Some || last + 0x28 <= space || space + 0x38 <= last + 0x20)
    &&& (read_u64(m, first + 0x18) is Some || first + 0x20 <= space || space + 0x38 <= first + 0x18)
    &&& (read_u64(m, first + 0x28) is Some || first + 0x30 <= space || space + 0x38 <= first + 0x28)
}

/// The 8 bytes at `x`, where mapped or where `apart` says so, lie outside
/// the new entry's first `0x38` bytes.
proof fn lemma_outside_new_entry(m: Seq<MemView>, libname: Seq<char>, x: int)
    requires
        can_create_ldr_entry(m, libname, first_entry(m), last_entry(m)),
        read_u64(m, x) is Some,
    ensures
        x + 8 <= entry_address(m) || entry_address(m) + 0x38 <= x,
{
    lemma_first_fit_fits(m, entry_space(), ALLOC64_MIN as int, ALLOC64_MAX as int);
    lemma_held_outside_free(m, x, 8, entry_address(m) as int, entry_space());
}

/// The load-order links and the base that linking a module leaves in the
/// last, the first and the new entry.
#[verifier::spinoff_prover]
#[verifier::rlimit(80)]
proof fn lemma_link_load_order(m: Seq<MemView>, base: u64, pe_off: u32, libname: Seq<char>)
    requires
        can_link_module(m, libname),
        first_entry(m) != 0,
        read_u64(m, last_entry(m) as int) is Some,
        read_u64(m, first_entry(m) + 8) is Some,
        rewritten_links_clear(m),
        first_entry(m) == last_entry(m) || first_entry(m) + 0x30 <= last_entry(m)
            || last_entry(m) + 0x30 <= first_entry(m),
    ensures
        ({
            let mm = after_link_module(m, base, pe_off, libname);
            let space = entry_address(m);
            &&& read_u64(mm, last_entry(m) as int) == Some(space)
            &&& read_u64(mm, first_entry(m) + 8) == Some(space)
            &&& read_u64(mm, space as int) == Some(first_entry(m))
            &&& read_u64(mm, space + 8) == Some(last_entry(m))
            &&& read_u64(mm, space + 0x30) == Some(base)
        }),
{
    broadcast use group_memory_laws;

    lemma_auto_spec_u64_to_from_le_bytes();
    let first = first_entry(m);
    let last = last_entry(m);
    let ep = pe_off as u64;
    let space = entry_address(m) as int;
    lemma_created_entry_reads_back(m, base, ep, libname, first, last);
    lemma_old_range_kept(m, base, ep, libname, first, last, last as int);
    lemma_old_range_kept(m, base, ep, libname, first, last, first + 8);
    lemma_outside_new_entry(m, libname, last as int);
    lemma_outside_new_entry(m, libname, first + 8);
    if read_u64(m, last + 0x10) is Some {
        lemma_outside_new_entry(m, libname, last + 0x10);
    }
    if read_u64(m, last + 0x20) is Some {
        lemma_outside_new_entry(m, libname, last + 0x20);
    }
    if read_u64(m, first + 0x18) is Some {
        lemma_outside_new_entry(m, libname, first + 0x18);
    }
    if read_u64(m, first + 0x28) is Some {
        lemma_outside_new_entry(m, libname, first + 0x28);
    }
    let mm = after_link_module(m, base, pe_off, libname);
    assert(read_u64(mm, last as int) == Some(space as u64));
    assert(read_u64(mm, first + 8) == Some(space as u64));
    assert(read_u64(mm, space) == Some(first));
    assert(read_u64(mm, space + 8) == Some(last));
    assert(read_u64(mm, space + 0x30) == Some(base));
}

/// A module linked in dynamically makes the load-order list a ring of one
/// more entry: walking from the first entry reaches the old entries as
/// before, then the new entry, then the first entry again, and the first
/// entry is not met on the way. The backward links of the other entries
/// are kept; the first entry's points back to the new entry, the new
/// entry's to the last, and the new entry holds the module's base. Where
/// the memory- and initialization-order links of the last and the first
/// entry are mapped, they point at the new entry's, and the new entry's at
/// theirs. This holds where the first entry is not at `0`, every backward
/// link lies in mapped memory, no two entries share their links, and the
/// rewritten memory- and initialization-order links do not fall into the
/// new entry.
pub proof fn lemma_linked_list_is_ring(m: Seq<MemView>, base: u64, pe_off: u32, libname: Seq<char>)
    requires
        can_link_module(m, libname),
        first_entry(m) != 0,
        entries_apart(m),
        forall|j: nat|
            j < list_length(m) ==> read_u64(m, (#[trigger] entry_after(m, first_entry(m), j))->0 + 8)
                is Some,
        rewritten_links_clear(m),
    ensures
        ({
            let mm = after_link_module(m, base, pe_off, libname);
            let first = first_entry(m);
            let last = last_entry(m);
            let space = entry_address(m);
            let n = list_length(m);
            &&& forall|j: nat|
                j < n ==> #[trigger] entry_after(mm, first, j) == entry_after(m, first, j)
            &&& entry_after(mm, first, n) == Some(space)
            &&& entry_after(mm, first, n + 1) == Some(first)
            &&& forall|j: nat| 1 <= j <= n ==> #[trigger] entry_after(mm, first, j) != Some(first)
            &&& read_u64(mm, first + 8) == Some(space)
            &&& read_u64(mm, space + 8) == Some(last)
            &&& forall|j: nat|
                1 <= j < n ==> read_u64(mm, (#[trigger] entry_after(m, first, j))->0 + 8) == read_u64(
                    m,
                    entry_after(m, first, j)->0 + 8,
                )
            &&& entry_base(mm, space as int) == base
            &&& link_fields_mapped(m) ==> {
                &&& read_u64(mm, last + 0x10) == Some((space + 0x10) as u64)
                &&& read_u64(mm, last + 0x20) == Some((space + 0x20) as u64)
                &&& read_u64(mm, first + 0x18) == Some((space + 0x10) as u64)
                &&& read_u64(mm, first + 0x28) == Some((space + 0x20) as u64)
                &&& read_u64(mm, space + 0x10) == Some((last + 0x10) as u64)
                &&& read_u64(mm, space + 0x18) == Some((first + 0x10) as u64)
                &&& read_u64(mm, space + 0x20) == Some((first + 0x20) as u64)
                &&& read_u64(mm, space + 0x28) == Some((last + 0x20) as u64)
            }
        }),
{
    let mm = after_link_module(m, base, pe_off, libname);
    let first = first_entry(m);
    let last = last_entry(m);
    let space = entry_address(m);
    let n = list_length(m);
    assert(ring_of_length(m, first, n));
    crate::emu::peb64::lemma_entry_after_prefix(m, first, (n - 1) as nat, n);
    assert(entry_after(m, first, 0) == Some(first));
    let a2 = entry_after(m, first, (n - 1) as nat);
    let a3 = entry_after(m, first, 0);
    assert(first == last || first + 0x30 <= last || last + 0x30 <= first);
    assert(entry_after(m, first, n) == read_u64(m, last as int));
    assert(read_u64(m, first + 8) is Some);
    lemma_link_load_order(m, base, pe_off, libname);
    if link_fields_mapped(m) {
        lemma_link_order_links(m, base, pe_off, libname);
    }
    assert forall|j: nat| j < n implies #[trigger] entry_after(mm, first, j) == entry_after(m, first, j)
        by {
        lemma_link_keeps_prefix(m, base, pe_off, libname, j);
    }
    lemma_link_keeps_prefix(m, base, pe_off, libname, (n - 1) as nat);
    assert(entry_after(mm, first, n) == read_u64(mm, last as int));
    assert(entry_after(mm, first, n + 1) == read_u64(mm, space as int));
    lemma_first_fit_fits(m, entry_space(), ALLOC64_MIN as int, ALLOC64_MAX as int);
    assert(space != first) by {
        lemma_held_outside_free(m, first + 8, 8, space as int, entry_space());
        crate::emu::maps::lemma_holder(m, first + 8, 8);
    }
    assert forall|j: nat| 1 <= j <= n implies #[trigger] entry_after(mm, first, j) != Some(first) by {
        if j < n {
            lemma_link_keeps_prefix(m, base, pe_off, libname, j);
        }
    }
    assert forall|j: nat| 1 <= j < n implies read_u64(mm, (#[trigger] entry_after(m, first, j))->0 + 8)
        == read_u64(m, entry_after(m, first, j)->0 + 8) by {
        crate::emu::peb64::lemma_entry_after_prefix(m, first, j, n);
        let x = entry_after(m, first, j)->0 as int;
        assert(x != first);
        let a1 = entry_after(m, first, j);
        assert(apart_from_rewritten_links(m, x + 8));
        lemma_link_keeps(m, base, pe_off, libname, x + 8);
    }
}

/// A created entry's name reads back later, through a cursor set on the
/// entry and `get_mod_name`, in any memory that still holds the entry's
/// name address and the name's UTF-16 units as creation left them (so
/// after any writes elsewhere), where the name is written as plain UTF-16
/// units.
pub proof fn lemma_created_name_reads_back_later(
    m: Seq<MemView>,
    base: u64,
    entry_point: u64,
    libname: Seq<char>,
    next: u64,
    prev: u64,
    later: Seq<MemView>,
    f: crate::emu::peb64::FlinkView,
)
    requires
        can_create_ldr_entry(m, libname, next, prev),
        plain_wide(libname),
        ({
            let mm = after_create_ldr_entry(m, base, entry_point, libname, next, prev);
            let a = entry_address(m) as int;
            &&& read_u64(later, a + 0x50) == read_u64(mm, a + 0x50)
            &&& forall|i: int|
                0 <= i <= libname.len() ==> #[trigger] read_u16(
                    later,
                    a + LDR_DATA_TABLE_ENTRY64_SIZE + 2 * i,
                ) == read_u16(mm, a + LDR_DATA_TABLE_ENTRY64_SIZE + 2 * i)
        }),
    ensures
        ({
            let cursor = crate::emu::peb64::FlinkView { flink_addr: entry_address(m), ..f };
            &&& entry_name(later, entry_address(m) as int) == libname
            &&& crate::emu::peb64::cursor_call(
                cursor,
                later,
                crate::emu::peb64::CursorCall::GetModName,
            ).0.mod_name == libname
        }),
{
    let mm = after_create_ldr_entry(m, base, entry_point, libname, next, prev);
    let a = entry_address(m) as int;
    lemma_created_entry_reads_back(m, base, entry_point, libname, next, prev);
    lemma_first_fit_fits(m, entry_space(), ALLOC64_MIN as int, ALLOC64_MAX as int);
    let name_at = a + LDR_DATA_TABLE_ENTRY64_SIZE;
    let s = libname.push('\0');
    assert forall|i: int| 0 <= i < libname.len() implies read_u16(later, name_at + 2 * i) == Some(
        wide_code(#[trigger] libname[i]),
    ) by {
        assert(read_u16(later, name_at + 2 * i) == read_u16(mm, name_at + 2 * i));
        assert(read_u16(mm, name_at + 2 * i) == Some(wide_code(s[i])));
        assert(s[i] == libname[i]);
    }
    assert(read_u16(later, name_at + 2 * libname.len()) == read_u16(mm, name_at + 2 * libname.len()));
    assert(read_u16(mm, name_at + 2 * libname.len()) == Some(wide_code(s[libname.len() as int])));
    assert(s[libname.len() as int] == '\0');
    assert(wide_code('\0') == 0u16);
    lemma_wide_string_read_back(later, name_at, libname);
}

} // verus!
