//! The emulated address space: named memory maps, each a run of bytes at a
//! base address, with little-endian reads and writes of bytes, words,
//! double words and quad words, and a first-fit allocator of free ranges.
use crate::emu::text::{byte_char, decode_byte_char, decode_wide_char, push_char, str_eq, wide_char};
use vstd::bytes::*;
use vstd::prelude::*;
use vstd::slice::*;
use vstd::string::*;

verus! {

/// Lowest address handed out for loader structures (PEB, loader data).
pub const LIB64_MIN: u64 = 0x7ff0_0000_0000;

/// End (exclusive) of the range handed out for loader structures.
pub const LIB64_MAX: u64 = 0x8000_0000_0000;

/// Lowest address handed out by the general allocator.
pub const ALLOC64_MIN: u64 = 0x1000_0000;

/// End (exclusive) of the range handed out by the general allocator.
pub const ALLOC64_MAX: u64 = 0x7ff0_0000_0000;

/// What a memory map holds: its name, its base address and its bytes.
pub struct MemView {
    pub name: Seq<char>,
    pub base: int,
    pub bytes: Seq<u8>,
}

impl MemView {
    /// First address past the map.
    pub open spec fn end(self) -> int {
        self.base + self.bytes.len()
    }

    /// Whether the `n` bytes from `addr` on all lie inside the map.
    pub open spec fn holds(self, addr: int, n: int) -> bool {
        &&& 0 <= n
        &&& self.base <= addr
        &&& addr + n <= self.end()
    }

    /// The `n` bytes from `addr` on.
    pub open spec fn slice(self, addr: int, n: int) -> Seq<u8> {
        self.bytes.subrange(addr - self.base, addr - self.base + n)
    }

    /// The map with `data` written from `addr` on.
    pub open spec fn overwrite(self, addr: int, data: Seq<u8>) -> MemView {
        MemView {
            name: self.name,
            base: self.base,
            bytes: Seq::new(
                self.bytes.len(),
                |j: int|
                    if addr - self.base <= j < addr - self.base + data.len() {
                        data[j - (addr - self.base)]
                    } else {
                        self.bytes[j]
                    },
            ),
        }
    }

    /// Whether the map shares an address with the `n` bytes from `addr` on.
    pub open spec fn overlaps(self, addr: int, n: int) -> bool {
        &&& self.bytes.len() > 0
        &&& self.base < addr + n
        &&& addr < self.end()
    }
}

/// Index of the first map, from index `i` on, that holds the `n` bytes from `addr`.
pub open spec fn holder_from(m: Seq<MemView>, addr: int, n: int, i: int) -> Option<int>
    decreases m.len() - i,
{
    if i < 0 || i >= m.len() {
        None
    } else if m[i].holds(addr, n) {
        Some(i)
    } else {
        holder_from(m, addr, n, i + 1)
    }
}

/// Index of the first map that holds the `n` bytes from `addr`: the map that
/// reads and writes of that range go to.
pub open spec fn holder(m: Seq<MemView>, addr: int, n: int) -> Option<int> {
    holder_from(m, addr, n, 0)
}

/// The `n` bytes from `addr` on, if one map holds them all.
pub open spec fn read_bytes(m: Seq<MemView>, addr: int, n: int) -> Option<Seq<u8>> {
    match holder(m, addr, n) {
        Some(i) => Some(m[i].slice(addr, n)),
        None => None,
    }
}

/// The memory after writing `data` from `addr` on; unchanged where no map
/// holds the whole range.
pub open spec fn write_bytes(m: Seq<MemView>, addr: int, data: Seq<u8>) -> Seq<MemView> {
    match holder(m, addr, data.len() as int) {
        Some(i) => m.update(i, m[i].overwrite(addr, data)),
        None => m,
    }
}

pub open spec fn read_u8(m: Seq<MemView>, addr: int) -> Option<u8> {
    match read_bytes(m, addr, 1) {
        Some(b) => Some(b[0]),
        None => None,
    }
}

/// The word whose little-endian bytes are `b[0]`, `b[1]`.
pub open spec fn u16_from_le(b: Seq<u8>) -> u16 {
    (b[0] as u16) | ((b[1] as u16) << 8)
}

/// The little-endian bytes of a word.
pub open spec fn u16_to_le(v: u16) -> Seq<u8> {
    seq![(v & 0xff) as u8, ((v >> 8) & 0xff) as u8]
}

pub open spec fn read_u16(m: Seq<MemView>, addr: int) -> Option<u16> {
    match read_bytes(m, addr, 2) {
        Some(b) => Some(u16_from_le(b)),
        None => None,
    }
}

pub open spec fn read_u32(m: Seq<MemView>, addr: int) -> Option<u32> {
    match read_bytes(m, addr, 4) {
        Some(b) => Some(spec_u32_from_le_bytes(b)),
        None => None,
    }
}

pub open spec fn read_u64(m: Seq<MemView>, addr: int) -> Option<u64> {
    match read_bytes(m, addr, 8) {
        Some(b) => Some(spec_u64_from_le_bytes(b)),
        None => None,
    }
}

pub open spec fn write_u8(m: Seq<MemView>, addr: int, v: u8) -> Seq<MemView> {
    write_bytes(m, addr, seq![v])
}

pub open spec fn write_u16(m: Seq<MemView>, addr: int, v: u16) -> Seq<MemView> {
    write_bytes(m, addr, u16_to_le(v))
}

pub open spec fn write_u32(m: Seq<MemView>, addr: int, v: u32) -> Seq<MemView> {
    write_bytes(m, addr, spec_u32_to_le_bytes(v))
}

pub open spec fn write_u64(m: Seq<MemView>, addr: int, v: u64) -> Seq<MemView> {
    write_bytes(m, addr, spec_u64_to_le_bytes(v))
}

/// Whether `n` bytes from `addr` can be written: one map holds them.
pub open spec fn writable(m: Seq<MemView>, addr: int, n: int) -> bool {
    holder(m, addr, n) is Some
}

/// The characters of the NUL-terminated UTF-16 string at `addr`: it ends at
/// the first zero unit or at the first unit that no map holds.
pub open spec fn wide_string_at(m: Seq<MemView>, addr: int) -> Seq<char>
    decreases 0x1_0000_0000_0000_0000 - addr,
{
    if addr < 0 || addr + 2 > 0x1_0000_0000_0000_0000 {
        Seq::empty()
    } else {
        match read_u16(m, addr) {
            Some(w) => if w == 0 {
                Seq::empty()
            } else {
                seq![wide_char(w)] + wide_string_at(m, addr + 2)
            },
            None => Seq::empty(),
        }
    }
}

/// The characters of the NUL-terminated byte string at `addr`: it ends at
/// the first zero byte or at the first byte that no map holds.
pub open spec fn byte_string_at(m: Seq<MemView>, addr: int) -> Seq<char>
    decreases 0x1_0000_0000_0000_0000 - addr,
{
    if addr < 0 || addr + 1 > 0x1_0000_0000_0000_0000 {
        Seq::empty()
    } else {
        match read_u8(m, addr) {
            Some(b) => if b == 0 {
                Seq::empty()
            } else {
                seq![byte_char(b)] + byte_string_at(m, addr + 1)
            },
            None => Seq::empty(),
        }
    }
}

/// The UTF-16 little-endian bytes of a string, each character cut to its
/// low sixteen bits.
pub open spec fn wide_bytes(s: Seq<char>) -> Seq<u8> {
    Seq::new(
        2 * s.len(),
        |j: int|
            if j % 2 == 0 {
                ((s[j / 2] as u32) & 0xff) as u8
            } else {
                (((s[j / 2] as u32) >> 8) & 0xff) as u8
            },
    )
}

/// Index of the first map, from index `i` on, with the given name.
pub open spec fn named_from(m: Seq<MemView>, name: Seq<char>, i: int) -> Option<int>
    decreases m.len() - i,
{
    if i < 0 || i >= m.len() {
        None
    } else if m[i].name == name {
        Some(i)
    } else {
        named_from(m, name, i + 1)
    }
}

/// Index of the first map with the given name.
pub open spec fn named(m: Seq<MemView>, name: Seq<char>) -> Option<int> {
    named_from(m, name, 0)
}

/// Whether no map shares an address with the `n` bytes from `addr`.
pub open spec fn is_free(m: Seq<MemView>, addr: int, n: int) -> bool {
    forall|i: int| 0 <= i < m.len() ==> !(#[trigger] m[i]).overlaps(addr, n)
}

/// Whether the `n` bytes from `addr` lie in `[lo, hi)` and are free.
pub open spec fn fits(m: Seq<MemView>, addr: int, n: int, lo: int, hi: int) -> bool {
    &&& lo <= addr
    &&& addr + n <= hi
    &&& is_free(m, addr, n)
}

/// What the allocator answers: the lowest address from which `n` free bytes
/// lie in `[lo, hi)`, or `None` where there is none.
pub open spec fn lowest_fit(m: Seq<MemView>, n: int, lo: int, hi: int, r: Option<u64>) -> bool {
    match r {
        Some(a) => fits(m, a as int, n, lo, hi) && forall|b: int| fits(m, b, n, lo, hi) ==> a <= b,
        None => forall|b: int| !fits(m, b, n, lo, hi),
    }
}

/// Whether `a` is the lowest address from which `n` free bytes lie in `[lo, hi)`.
pub open spec fn is_lowest_fit(m: Seq<MemView>, a: int, n: int, lo: int, hi: int) -> bool {
    fits(m, a, n, lo, hi) && forall|b: int| fits(m, b, n, lo, hi) ==> a <= b
}

/// The allocator's answer as a function of the memory: the lowest address
/// from which `n` free bytes lie in `[lo, hi)`, if there is one.
pub open spec fn first_fit(m: Seq<MemView>, n: int, lo: int, hi: int) -> Option<u64> {
    if exists|a: int| is_lowest_fit(m, a, n, lo, hi) {
        Some((choose|a: int| is_lowest_fit(m, a, n, lo, hi)) as u64)
    } else {
        None
    }
}

/// An answer that meets `lowest_fit` is `first_fit`.
pub proof fn lemma_lowest_fit_is_first_fit(m: Seq<MemView>, n: int, lo: int, hi: int, r: Option<u64>)
    requires
        lowest_fit(m, n, lo, hi, r),
    ensures
        r == first_fit(m, n, lo, hi),
{
    match r {
        Some(a) => {
            assert(is_lowest_fit(m, a as int, n, lo, hi));
            let c = choose|c: int| is_lowest_fit(m, c, n, lo, hi);
            assert(c <= a && a <= c);
        },
        None => {
            assert(!exists|a: int| is_lowest_fit(m, a, n, lo, hi));
        },
    }
}

/// A map added outside `[lo, hi)` does not change what the allocator finds
/// there.
pub proof fn lemma_first_fit_push_outside(m: Seq<MemView>, r: MemView, n: int, lo: int, hi: int)
    requires
        first_fit(m, n, lo, hi) is Some,
        r.end() <= lo || hi <= r.base,
        hi <= 0x1_0000_0000_0000_0000,
    ensures
        first_fit(m.push(r), n, lo, hi) == first_fit(m, n, lo, hi),
{
    let mp = m.push(r);
    assert forall|b: int| fits(mp, b, n, lo, hi) == fits(m, b, n, lo, hi) by {
        if fits(m, b, n, lo, hi) {
            assert forall|i: int| 0 <= i < mp.len() implies !(#[trigger] mp[i]).overlaps(b, n) by {
                if i < m.len() {
                    assert(mp[i] == m[i]);
                }
            }
        }
        if fits(mp, b, n, lo, hi) {
            assert forall|i: int| 0 <= i < m.len() implies !(#[trigger] m[i]).overlaps(b, n) by {
                assert(mp[i] == m[i]);
            }
        }
    }
    let a = choose|a: int| is_lowest_fit(m, a, n, lo, hi);
    assert(is_lowest_fit(mp, a, n, lo, hi));
    let c = choose|c: int| is_lowest_fit(mp, c, n, lo, hi);
    assert(c <= a && a <= c);
}

/// Two memories whose maps lie at the same places (contents may differ).
pub open spec fn same_layout(m1: Seq<MemView>, m2: Seq<MemView>) -> bool {
    &&& m1.len() == m2.len()
    &&& forall|i: int|
        0 <= i < m1.len() ==> (#[trigger] m1[i]).base == m2[i].base && m1[i].bytes.len()
            == m2[i].bytes.len()
}

pub proof fn lemma_holder_from(m: Seq<MemView>, addr: int, n: int, i: int)
    requires
        0 <= i,
    ensures
        match holder_from(m, addr, n, i) {
            Some(k) => i <= k < m.len() && m[k].holds(addr, n) && forall|j: int|
                i <= j < k ==> !(#[trigger] m[j]).holds(addr, n),
            None => forall|j: int| i <= j < m.len() ==> !(#[trigger] m[j]).holds(addr, n),
        },
    decreases m.len() - i,
{
    if i < m.len() && !m[i].holds(addr, n) {
        lemma_holder_from(m, addr, n, i + 1);
    }
}

pub proof fn lemma_holder(m: Seq<MemView>, addr: int, n: int)
    ensures
        match holder(m, addr, n) {
            Some(k) => 0 <= k < m.len() && m[k].holds(addr, n) && forall|j: int|
                0 <= j < k ==> !(#[trigger] m[j]).holds(addr, n),
            None => forall|j: int| 0 <= j < m.len() ==> !(#[trigger] m[j]).holds(addr, n),
        },
{
    lemma_holder_from(m, addr, n, 0);
}

pub proof fn lemma_named_from(m: Seq<MemView>, name: Seq<char>, i: int)
    requires
        0 <= i,
    ensures
        match named_from(m, name, i) {
            Some(k) => i <= k < m.len() && m[k].name == name && forall|j: int|
                i <= j < k ==> (#[trigger] m[j]).name != name,
            None => forall|j: int| i <= j < m.len() ==> (#[trigger] m[j]).name != name,
        },
    decreases m.len() - i,
{
    if i < m.len() && m[i].name != name {
        lemma_named_from(m, name, i + 1);
    }
}

pub proof fn lemma_holder_same_layout(m1: Seq<MemView>, m2: Seq<MemView>, addr: int, n: int, i: int)
    requires
        same_layout(m1, m2),
    ensures
        holder_from(m1, addr, n, i) == holder_from(m2, addr, n, i),
    decreases m1.len() - i,
{
    if 0 <= i < m1.len() {
        assert(m1[i].holds(addr, n) == m2[i].holds(addr, n));
        lemma_holder_same_layout(m1, m2, addr, n, i + 1);
    }
}

pub proof fn lemma_named_same_names(m1: Seq<MemView>, m2: Seq<MemView>, name: Seq<char>, i: int)
    requires
        m1.len() == m2.len(),
        forall|j: int| 0 <= j < m1.len() ==> (#[trigger] m1[j]).name == m2[j].name,
    ensures
        named_from(m1, name, i) == named_from(m2, name, i),
    decreases m1.len() - i,
{
    if 0 <= i < m1.len() {
        assert(m1[i].name == m2[i].name);
        lemma_named_same_names(m1, m2, name, i + 1);
    }
}

/// Writing keeps every map at its place, with its name.
pub proof fn lemma_write_keeps_layout(m: Seq<MemView>, addr: int, data: Seq<u8>)
    ensures
        same_layout(m, write_bytes(m, addr, data)),
        forall|j: int| 0 <= j < m.len() ==> (#[trigger] m[j]).name == write_bytes(m, addr, data)[j].name,
        forall|a: int, n: int| holder(write_bytes(m, addr, data), a, n) == holder(m, a, n),
        forall|name: Seq<char>| named(write_bytes(m, addr, data), name) == named(m, name),
        forall|a: int, n: int| is_free(write_bytes(m, addr, data), a, n) == is_free(m, a, n),
{
    let w = write_bytes(m, addr, data);
    lemma_holder(m, addr, data.len() as int);
    assert(same_layout(m, w)) by {
        match holder(m, addr, data.len() as int) {
            Some(i) => {
                assert forall|j: int| 0 <= j < m.len() implies (#[trigger] m[j]).base == w[j].base
                    && m[j].bytes.len() == w[j].bytes.len() by {
                    if j == i {
                    }
                }
            },
            None => {},
        }
    }
    assert forall|j: int| 0 <= j < m.len() implies (#[trigger] m[j]).name == w[j].name by {
        match holder(m, addr, data.len() as int) {
            Some(i) => {
                if j == i {
                }
            },
            None => {},
        }
    }
    assert forall|a: int, n: int| holder(w, a, n) == holder(m, a, n) by {
        lemma_holder_same_layout(w, m, a, n, 0);
    }
    assert forall|name: Seq<char>| named(w, name) == named(m, name) by {
        lemma_named_same_names(w, m, name, 0);
    }
    assert forall|a: int, n: int| is_free(w, a, n) == is_free(m, a, n) by {
        assert forall|i: int| 0 <= i < m.len() implies w[i].overlaps(a, n) == m[i].overlaps(a, n) by {
        }
    }
}

/// A read of the range just written gives back what was written.
pub proof fn lemma_read_after_write(m: Seq<MemView>, addr: int, data: Seq<u8>)
    requires
        writable(m, addr, data.len() as int),
    ensures
        read_bytes(write_bytes(m, addr, data), addr, data.len() as int) == Some(data),
{
    lemma_write_keeps_layout(m, addr, data);
    lemma_holder(m, addr, data.len() as int);
    let i = holder(m, addr, data.len() as int)->0;
    let w = write_bytes(m, addr, data);
    assert(w[i].slice(addr, data.len() as int) =~= data);
}

/// A write leaves every range that it does not touch as it was.
pub proof fn lemma_read_other(m: Seq<MemView>, addr: int, data: Seq<u8>, b: int, n: int)
    requires
        0 <= n,
        b + n <= addr || addr + data.len() <= b,
    ensures
        read_bytes(write_bytes(m, addr, data), b, n) == read_bytes(m, b, n),
{
    lemma_write_keeps_layout(m, addr, data);
    lemma_holder(m, b, n);
    lemma_holder(m, addr, data.len() as int);
    let w = write_bytes(m, addr, data);
    match holder(m, b, n) {
        Some(k) => {
            assert(w[k].slice(b, n) =~= m[k].slice(b, n));
        },
        None => {},
    }
}

/// A quad word reads back as the value written there.
pub proof fn lemma_u64_read_after_write(m: Seq<MemView>, addr: int, v: u64)
    requires
        writable(m, addr, 8),
    ensures
        read_u64(write_u64(m, addr, v), addr) == Some(v),
{
    lemma_auto_spec_u64_to_from_le_bytes();
    lemma_read_after_write(m, addr, spec_u64_to_le_bytes(v));
}

/// A quad word written elsewhere leaves the quad word at `b` as it was.
pub proof fn lemma_u64_read_other(m: Seq<MemView>, addr: int, v: u64, b: int)
    requires
        b + 8 <= addr || addr + 8 <= b,
    ensures
        read_u64(write_u64(m, addr, v), b) == read_u64(m, b),
{
    lemma_auto_spec_u64_to_from_le_bytes();
    lemma_read_other(m, addr, spec_u64_to_le_bytes(v), b, 8);
}

/// Writing keeps which map holds any range.
pub broadcast proof fn lemma_write_holder(m: Seq<MemView>, addr: int, data: Seq<u8>, b: int, n: int)
    ensures
        #[trigger] holder(write_bytes(m, addr, data), b, n) == holder(m, b, n),
{
    lemma_write_keeps_layout(m, addr, data);
}

/// Writing keeps the names of the maps, so the map found by name.
pub broadcast proof fn lemma_write_named(m: Seq<MemView>, addr: int, data: Seq<u8>, name: Seq<char>)
    ensures
        #[trigger] named(write_bytes(m, addr, data), name) == named(m, name),
{
    lemma_write_keeps_layout(m, addr, data);
}

/// A write changes no read of a range it does not touch.
pub broadcast proof fn lemma_write_read_other(m: Seq<MemView>, addr: int, data: Seq<u8>, b: int, n: int)
    requires
        0 <= n,
        b + n <= addr || addr + data.len() <= b,
    ensures
        #[trigger] read_bytes(write_bytes(m, addr, data), b, n) == read_bytes(m, b, n),
{
    lemma_read_other(m, addr, data, b, n);
}

/// A read of the whole range just written gives back what was written.
pub broadcast proof fn lemma_write_read_same(m: Seq<MemView>, addr: int, data: Seq<u8>)
    requires
        writable(m, addr, data.len() as int),
    ensures
        #[trigger] read_bytes(write_bytes(m, addr, data), addr, data.len() as int) == Some(data),
{
    lemma_read_after_write(m, addr, data);
}

/// Writing keeps which ranges are free of maps.
pub broadcast proof fn lemma_write_is_free(m: Seq<MemView>, addr: int, data: Seq<u8>, b: int, n: int)
    ensures
        #[trigger] is_free(write_bytes(m, addr, data), b, n) == is_free(m, b, n),
{
    lemma_write_keeps_layout(m, addr, data);
}

/// The lowest fit is the allocator's answer.
pub proof fn lemma_first_fit_is(m: Seq<MemView>, a: int, n: int, lo: int, hi: int)
    requires
        is_lowest_fit(m, a, n, lo, hi),
        0 <= a <= u64::MAX,
    ensures
        first_fit(m, n, lo, hi) == Some(a as u64),
{
    lemma_lowest_fit_is_first_fit(m, n, lo, hi, Some(a as u64));
}

pub broadcast group group_memory_laws {
    lemma_write_holder,
    lemma_write_named,
    lemma_write_read_other,
    lemma_write_read_same,
}

/// A map that shares no address with the maps before it changes no read of
/// a range that they already hold.
pub proof fn lemma_read_after_push(m: Seq<MemView>, r: MemView, b: int, n: int)
    requires
        holder(m, b, n) is Some,
    ensures
        holder(m.push(r), b, n) == holder(m, b, n),
        read_bytes(m.push(r), b, n) == read_bytes(m, b, n),
{
    lemma_holder(m, b, n);
    lemma_holder(m.push(r), b, n);
    let k = holder(m, b, n)->0;
    let k2 = holder(m.push(r), b, n)->0;
    assert(m.push(r)[k] == m[k]);
    if k2 < k {
        assert(m.push(r)[k2] == m[k2]);
    }
}

pub proof fn lemma_holder_after_push_absent(m: Seq<MemView>, r: MemView, b: int, n: int)
    requires
        holder(m, b, n) is None,
        r.holds(b, n),
    ensures
        holder(m.push(r), b, n) == Some(m.len() as int),
{
    lemma_holder(m, b, n);
    lemma_holder(m.push(r), b, n);
    let mp = m.push(r);
    match holder(mp, b, n) {
        Some(k) => {
            if k < m.len() {
                assert(mp[k] == m[k]);
            }
        },
        None => {
            assert(mp[m.len() as int] == r);
        },
    }
}

/// A range that overlaps no map is held by no map.
pub proof fn lemma_free_not_held(m: Seq<MemView>, addr: int, n: int)
    requires
        is_free(m, addr, n),
        n > 0,
    ensures
        holder(m, addr, n) is None,
{
    lemma_holder(m, addr, n);
    if holder(m, addr, n) is Some {
        let k = holder(m, addr, n)->0;
        assert(m[k].overlaps(addr, n));
    }
}

/// Every fitting address has a fitting candidate at or below it, a candidate
/// being `lo` or the end of a map.
pub proof fn lemma_fit_has_candidate(m: Seq<MemView>, a: int, n: int, lo: int, hi: int)
    requires
        fits(m, a, n, lo, hi),
    ensures
        exists|c: int|
            #![trigger fits(m, c, n, lo, hi)]
            c <= a && fits(m, c, n, lo, hi) && (c == lo || exists|i: int|
                0 <= i < m.len() && (#[trigger] m[i]).end() == c),
    decreases a - lo,
{
    if a == lo {
        assert(a <= a && fits(m, a, n, lo, hi));
    } else if fits(m, a - 1, n, lo, hi) {
        lemma_fit_has_candidate(m, a - 1, n, lo, hi);
        let c = choose|c: int|
            #![trigger fits(m, c, n, lo, hi)]
            c <= a - 1 && fits(m, c, n, lo, hi) && (c == lo || exists|i: int|
                0 <= i < m.len() && (#[trigger] m[i]).end() == c);
        assert(c <= a && fits(m, c, n, lo, hi));
    } else {
        let i = choose|i: int| 0 <= i < m.len() && (#[trigger] m[i]).overlaps(a - 1, n);
        assert(!m[i].overlaps(a, n));
        assert(m[i].end() == a);
        assert(a <= a && fits(m, a, n, lo, hi));
    }
}

/// The UTF-16 unit a character is written as: its low sixteen bits.
pub open spec fn wide_code(c: char) -> u16 {
    (c as u32) as u16
}

/// Whether every character of `s` is written as one nonzero UTF-16 unit
/// that reads back as itself: no NUL and nothing beyond U+FFFF.
pub open spec fn plain_wide(s: Seq<char>) -> bool {
    forall|i: int| 0 <= i < s.len() ==> 0 < (#[trigger] s[i]) as u32 && (s[i] as u32) < 0x10000
}

/// Two bytes of `wide_bytes(s)` at an even offset form the unit of the
/// character there.
pub proof fn lemma_wide_bytes_unit(s: Seq<char>, i: int)
    requires
        0 <= i < s.len(),
    ensures
        u16_from_le(wide_bytes(s).subrange(2 * i, 2 * i + 2)) == wide_code(s[i]),
{
    let x = s[i] as u32;
    let b = wide_bytes(s).subrange(2 * i, 2 * i + 2);
    assert((2 * i) % 2 == 0 && (2 * i) / 2 == i);
    assert((2 * i + 1) % 2 == 1 && (2 * i + 1) / 2 == i);
    assert(b[0] == (x & 0xff) as u8);
    assert(b[1] == ((x >> 8) & 0xff) as u8);
    assert(((((x & 0xff) as u8) as u16) | ((((x >> 8) & 0xff) as u8) as u16) << 8) == x as u16)
        by (bit_vector);
}

/// A character written as its unit reads back as itself.
pub proof fn lemma_wide_char_round_trip(c: char)
    requires
        (c as u32) < 0x10000,
    ensures
        wide_char(wide_code(c)) == c,
        0 < (c as u32) ==> wide_code(c) != 0,
{
    let x = c as u32;
    assert(x < 0x10000 ==> (x as u16) as u32 == x) by (bit_vector);
}

/// A string written as UTF-16 units, with a terminating zero unit, reads
/// back as itself.
pub proof fn lemma_wide_string_read_back(m: Seq<MemView>, a: int, s: Seq<char>)
    requires
        plain_wide(s),
        0 <= a,
        a + 2 * s.len() + 2 <= 0x1_0000_0000_0000_0000,
        forall|i: int| 0 <= i < s.len() ==> read_u16(m, a + 2 * i) == Some(wide_code(#[trigger] s[i])),
        read_u16(m, a + 2 * s.len()) == Some(0u16),
    ensures
        wide_string_at(m, a) == s,
    decreases s.len(),
{
    if s.len() == 0 {
        assert(wide_string_at(m, a) =~= s);
    } else {
        let c = s[0];
        lemma_wide_char_round_trip(c);
        assert(read_u16(m, a + 2 * 0) == Some(wide_code(s[0])));
        let rest = s.drop_first();
        assert forall|i: int| 0 <= i < rest.len() implies read_u16(m, (a + 2) + 2 * i) == Some(
            wide_code(#[trigger] rest[i]),
        ) by {
            assert(rest[i] == s[i + 1]);
            assert(read_u16(m, a + 2 * (i + 1)) == Some(wide_code(s[i + 1])));
            assert(a + 2 * (i + 1) == (a + 2) + 2 * i);
        }
        assert(a + 2 + 2 * rest.len() == a + 2 * s.len());
        lemma_wide_string_read_back(m, a + 2, rest);
        assert(wide_string_at(m, a) =~= seq![c] + rest);
        assert(seq![c] + rest =~= s);
    }
}

/// The allocator's answer fits.
pub proof fn lemma_first_fit_fits(m: Seq<MemView>, n: int, lo: int, hi: int)
    requires
        first_fit(m, n, lo, hi) is Some,
        0 <= lo,
        0 < n,
        hi <= 0x1_0000_0000_0000_0000,
    ensures
        fits(m, first_fit(m, n, lo, hi)->0 as int, n, lo, hi),
        first_fit(m, n, lo, hi)->0 + n <= hi,
{
    let c = choose|a: int| is_lowest_fit(m, a, n, lo, hi);
    assert(is_lowest_fit(m, c, n, lo, hi));
    assert(0 <= c <= u64::MAX);
    assert(c as u64 as int == c);
}

/// Part of a free range is free.
pub proof fn lemma_free_part(m: Seq<MemView>, s: int, len: int, a: int, n: int)
    requires
        is_free(m, s, len),
        s <= a,
        a + n <= s + len,
        0 < n,
    ensures
        is_free(m, a, n),
{
    assert forall|i: int| 0 <= i < m.len() implies !(#[trigger] m[i]).overlaps(a, n) by {
        assert(!m[i].overlaps(s, len));
    }
}

/// A map added over a free range holds, alone, what it holds there.
pub proof fn lemma_fresh_map_read(m: Seq<MemView>, r: MemView, a: int, n: int)
    requires
        is_free(m, a, n),
        0 < n,
        r.holds(a, n),
    ensures
        holder(m.push(r), a, n) == Some(m.len() as int),
        read_bytes(m.push(r), a, n) == Some(r.slice(a, n)),
{
    lemma_free_not_held(m, a, n);
    lemma_holder_after_push_absent(m, r, a, n);
    assert(m.push(r)[m.len() as int] == r);
}

/// A map added that does not hold a range leaves it unheld.
pub proof fn lemma_push_not_holding(m: Seq<MemView>, r: MemView, a: int, n: int)
    requires
        holder(m, a, n) is None,
        !r.holds(a, n),
    ensures
        holder(m.push(r), a, n) is None,
{
    lemma_holder(m, a, n);
    lemma_holder(m.push(r), a, n);
    if holder(m.push(r), a, n) is Some {
        let k = holder(m.push(r), a, n)->0;
        if k < m.len() {
            assert(m.push(r)[k] == m[k]);
        } else {
            assert(m.push(r)[k] == r);
        }
    }
}

/// The map found by name once a map is added after the others.
pub proof fn lemma_named_push(m: Seq<MemView>, r: MemView, name: Seq<char>)
    ensures
        named(m.push(r), name) == if named(m, name) is Some {
            named(m, name)
        } else if r.name == name {
            Some(m.len() as int)
        } else {
            None
        },
{
    lemma_named_from(m, name, 0);
    lemma_named_from(m.push(r), name, 0);
    let mp = m.push(r);
    match named(mp, name) {
        Some(k) => {
            if k < m.len() {
                assert(mp[k] == m[k]);
            }
            match named(m, name) {
                Some(k2) => {
                    assert(mp[k2] == m[k2]);
                },
                None => {},
            }
        },
        None => {
            assert(mp[m.len() as int] == r);
            match named(m, name) {
                Some(k2) => {
                    assert(mp[k2] == m[k2]);
                },
                None => {},
            }
        },
    }
}

/// An overwrite leaves the bytes of a map outside it as they were.
pub broadcast proof fn lemma_overwrite_slice_other(r: MemView, a: int, d: Seq<u8>, b: int, n: int)
    requires
        r.holds(b, n),
        b + n <= a || a + d.len() <= b,
    ensures
        #[trigger] r.overwrite(a, d).slice(b, n) == r.slice(b, n),
{
    assert(r.overwrite(a, d).slice(b, n) =~= r.slice(b, n));
}

/// An overwrite reads back as what was written.
pub broadcast proof fn lemma_overwrite_slice_same(r: MemView, a: int, d: Seq<u8>)
    requires
        r.holds(a, d.len() as int),
    ensures
        #[trigger] r.overwrite(a, d).slice(a, d.len() as int) == d,
{
    assert(r.overwrite(a, d).slice(a, d.len() as int) =~= d);
}

pub broadcast group group_overwrite_laws {
    lemma_overwrite_slice_other,
    lemma_overwrite_slice_same,
}

/// A memory map: a name, a base address and the bytes from there on.
pub struct Mem64 {
    name: String,
    base: u64,
    mem: Vec<u8>,
}

impl View for Mem64 {
    type V = MemView;

    closed spec fn view(&self) -> MemView {
        MemView { name: self.name@, base: self.base as int, bytes: self.mem@ }
    }
}

impl Mem64 {
    /// A map of `size` zero bytes at `base`.
    pub fn new(name: &str, base: u64, size: u64) -> (r: Mem64)
        requires
            size <= usize::MAX,
        ensures
            r@ == (MemView { name: name@, base: base as int, bytes: Seq::new(size as nat, |j: int| 0u8) }),
    {
        let mem: Vec<u8> = vec![0u8; size as usize];
        let r = Mem64 { name: String::from_str(name), base, mem };
        assert(r@.bytes =~= Seq::new(size as nat, |j: int| 0u8));
        r
    }

    pub fn get_name(&self) -> (r: &str)
        ensures
            r@ == self@.name,
    {
        self.name.as_str()
    }

    pub fn get_base(&self) -> (r: u64)
        ensures
            r == self@.base,
    {
        self.base
    }

    pub fn get_size(&self) -> (r: u64)
        ensures
            r == self@.bytes.len(),
    {
        self.mem.len() as u64
    }

    /// Whether the `n` bytes from `addr` on all lie inside the map.
    pub fn inside(&self, addr: u64, n: u64) -> (r: bool)
        ensures
            r == self@.holds(addr as int, n as int),
    {
        let len = self.mem.len() as u64;
        addr >= self.base && addr - self.base <= len && n <= len - (addr - self.base)
    }

    /// The `n` bytes from `addr` on.
    pub fn read_bytes(&self, addr: u64, n: u64) -> (r: &[u8])
        requires
            self@.holds(addr as int, n as int),
        ensures
            r@ == self@.slice(addr as int, n as int),
    {
        proof {
            assert(self.mem@.len() == self.mem.len());
        }
        let off = (addr - self.base) as usize;
        slice_subrange(self.mem.as_slice(), off, off + n as usize)
    }

    pub fn read_byte(&self, addr: u64) -> (r: u8)
        requires
            self@.holds(addr as int, 1),
        ensures
            r == self@.slice(addr as int, 1)[0],
    {
        proof {
            assert(self.mem@.len() == self.mem.len());
        }
        self.mem[(addr - self.base) as usize]
    }

    pub fn read_qword(&self, addr: u64) -> (r: u64)
        requires
            self@.holds(addr as int, 8),
        ensures
            r == spec_u64_from_le_bytes(self@.slice(addr as int, 8)),
    {
        u64_from_le_bytes(self.read_bytes(addr, 8))
    }

    /// Writes `data` from `addr` on.
    pub fn write_bytes(&mut self, addr: u64, data: &[u8])
        requires
            old(self)@.holds(addr as int, data@.len() as int),
        ensures
            final(self)@ == old(self)@.overwrite(addr as int, data@),
    {
        let len = self.mem.len();
        let off = (addr - self.base) as usize;
        let ghost old_bytes = self.mem@;
        let mut k: usize = 0;
        while k < data.len()
            invariant
                off == addr - self.base,
                off + data@.len() <= self.mem@.len(),
                self.mem@.len() == len,
                self.mem@.len() == old_bytes.len(),
                k <= data@.len(),
                self.name@ == old(self)@.name,
                self.base == old(self)@.base,
                old_bytes == old(self)@.bytes,
                forall|j: int|
                    0 <= j < self.mem@.len() ==> #[trigger] self.mem@[j] == if off <= j < off + k {
                        data@[j - off]
                    } else {
                        old_bytes[j]
                    },
            decreases data@.len() - k,
        {
            self.mem.set(off + k, data[k]);
            k += 1;
        }
        assert(self@.bytes =~= old(self)@.overwrite(addr as int, data@).bytes);
    }

    pub fn write_byte(&mut self, addr: u64, v: u8)
        requires
            old(self)@.holds(addr as int, 1),
        ensures
            final(self)@ == old(self)@.overwrite(addr as int, seq![v]),
    {
        let data: Vec<u8> = vec![v];
        assert(data@ =~= seq![v]);
        self.write_bytes(addr, data.as_slice());
    }

    pub fn write_qword(&mut self, addr: u64, v: u64)
        requires
            old(self)@.holds(addr as int, 8),
        ensures
            final(self)@ == old(self)@.overwrite(addr as int, spec_u64_to_le_bytes(v)),
    {
        let data = u64_to_le_bytes(v);
        self.write_bytes(addr, data.as_slice());
    }

    /// Writes `s` as UTF-16 little-endian from `addr` on, two bytes per
    /// character.
    pub fn write_wide_string(&mut self, addr: u64, s: &str)
        requires
            old(self)@.holds(addr as int, 2 * s@.len() as int),
        ensures
            final(self)@ == old(self)@.overwrite(addr as int, wide_bytes(s@)),
    {
        proof {
            assert(self.mem@.len() == self.mem.len());
        }
        let data = wide_string_bytes(s);
        self.write_bytes(addr, data.as_slice());
    }
}

/// The UTF-16 little-endian bytes of `s`, each character cut to its low
/// sixteen bits.
pub fn wide_string_bytes(s: &str) -> (r: Vec<u8>)
    requires
        2 * s@.len() <= usize::MAX,
    ensures
        r@ == wide_bytes(s@),
{
    let n = s.unicode_len();
    let mut out: Vec<u8> = Vec::new();
    let mut i: usize = 0;
    while i < n
        invariant
            n == s@.len(),
            2 * n <= usize::MAX,
            i <= n,
            out@.len() == 2 * i,
            forall|j: int| 0 <= j < 2 * i ==> #[trigger] out@[j] == wide_bytes(s@)[j],
        decreases n - i,
    {
        let c = s.get_char(i) as u32;
        out.push((c & 0xff) as u8);
        out.push(((c >> 8) & 0xff) as u8);
        assert(out@[2 * i as int] == wide_bytes(s@)[2 * i as int]);
        assert(out@[2 * i + 1] == wide_bytes(s@)[2 * i + 1]);
        i += 1;
    }
    assert(out@ =~= wide_bytes(s@));
    out
}

/// The memory maps of an emulated process.
pub struct Maps {
    maps: Vec<Mem64>,
}

impl View for Maps {
    type V = Seq<MemView>;

    closed spec fn view(&self) -> Seq<MemView> {
        self.maps@.map_values(|r: Mem64| r@)
    }
}

impl Maps {
    /// No maps.
    pub fn new() -> (r: Maps)
        ensures
            r@ == Seq::<MemView>::empty(),
    {
        let r = Maps { maps: Vec::new() };
        assert(r@ =~= Seq::<MemView>::empty());
        r
    }

    pub fn len(&self) -> (r: usize)
        ensures
            r == self@.len(),
    {
        self.maps.len()
    }

    /// The map at position `i`.
    pub fn get(&self, i: usize) -> (r: &Mem64)
        requires
            i < self@.len(),
        ensures
            r@ == self@[i as int],
    {
        &self.maps[i]
    }

    /// Adds a map after the others.
    pub fn add_map(&mut self, mem: Mem64)
        ensures
            final(self)@ == old(self)@.push(mem@),
    {
        let ghost mv = mem@;
        self.maps.push(mem);
        assert(self@ =~= old(self)@.push(mv));
    }

    /// Adds a map of `size` zero bytes at `base` after the others.
    pub fn create_map(&mut self, name: &str, base: u64, size: u64)
        requires
            size <= usize::MAX,
        ensures
            final(self)@ == old(self)@.push(
                MemView { name: name@, base: base as int, bytes: Seq::new(size as nat, |j: int| 0u8) },
            ),
    {
        let mem = Mem64::new(name, base, size);
        self.add_map(mem);
    }

    /// Position of the first map with the given name.
    pub fn find_mem(&self, name: &str) -> (r: Option<usize>)
        ensures
            r matches Some(i) ==> named(self@, name@) == Some(i as int),
            r is None ==> named(self@, name@) is None,
    {
        let mut i: usize = 0;
        while i < self.maps.len()
            invariant
                i <= self@.len(),
                self@.len() == self.maps@.len(),
                named(self@, name@) == named_from(self@, name@, i as int),
            decreases self@.len() - i,
        {
            if str_eq(self.maps[i].get_name(), name) {
                return Some(i);
            }
            i += 1;
        }
        None
    }

    /// The first map with the given name.
    pub fn get_mem(&self, name: &str) -> (r: &Mem64)
        requires
            named(self@, name@) is Some,
        ensures
            r@ == self@[named(self@, name@)->0],
    {
        let i = self.find_mem(name);
        proof {
            lemma_named_from(self@, name@, 0);
        }
        match i {
            Some(i) => &self.maps[i],
            None => {
                proof {
                    assert(false);
                }
                &self.maps[0]
            },
        }
    }

    /// Position of the first map that holds the `n` bytes from `addr`.
    pub fn holder_of(&self, addr: u64, n: u64) -> (r: Option<usize>)
        ensures
            r matches Some(i) ==> holder(self@, addr as int, n as int) == Some(i as int),
            r is None ==> holder(self@, addr as int, n as int) is None,
    {
        let mut i: usize = 0;
        while i < self.maps.len()
            invariant
                i <= self@.len(),
                self@.len() == self.maps@.len(),
                holder(self@, addr as int, n as int) == holder_from(self@, addr as int, n as int, i as int),
            decreases self@.len() - i,
        {
            if self.maps[i].inside(addr, n) {
                return Some(i);
            }
            i += 1;
        }
        None
    }

    fn read_range(&self, addr: u64, n: u64) -> (r: Option<&[u8]>)
        ensures
            match r {
                Some(s) => read_bytes(self@, addr as int, n as int) == Some(s@) && s@.len() == n,
                None => read_bytes(self@, addr as int, n as int) is None,
            },
    {
        let h = self.holder_of(addr, n);
        proof {
            lemma_holder(self@, addr as int, n as int);
        }
        match h {
            Some(i) => Some(self.maps[i].read_bytes(addr, n)),
            None => None,
        }
    }

    pub fn read_byte(&self, addr: u64) -> (r: Option<u8>)
        ensures
            r == read_u8(self@, addr as int),
    {
        match self.read_range(addr, 1) {
            Some(s) => Some(s[0]),
            None => None,
        }
    }

    pub fn read_word(&self, addr: u64) -> (r: Option<u16>)
        ensures
            r == read_u16(self@, addr as int),
    {
        match self.read_range(addr, 2) {
            Some(s) => Some((s[0] as u16) | ((s[1] as u16) << 8)),
            None => None,
        }
    }

    pub fn read_dword(&self, addr: u64) -> (r: Option<u32>)
        ensures
            r == read_u32(self@, addr as int),
    {
        match self.read_range(addr, 4) {
            Some(s) => Some(u32_from_le_bytes(s)),
            None => None,
        }
    }

    pub fn read_qword(&self, addr: u64) -> (r: Option<u64>)
        ensures
            r == read_u64(self@, addr as int),
    {
        match self.read_range(addr, 8) {
            Some(s) => Some(u64_from_le_bytes(s)),
            None => None,
        }
    }

    /// Writes `data` from `addr` on, into the first map that holds the whole
    /// range; `false`, and nothing written, where none does.
    pub fn write_bytes(&mut self, addr: u64, data: &[u8]) -> (r: bool)
        ensures
            final(self)@ == write_bytes(old(self)@, addr as int, data@),
            r == writable(old(self)@, addr as int, data@.len() as int),
    {
        let h = self.holder_of(addr, data.len() as u64);
        proof {
            lemma_holder(self@, addr as int, data@.len() as int);
        }
        match h {
            Some(i) => {
                let ghost old_view = self@;
                let ghost region = self.maps@[i as int];
                self.maps[i].write_bytes(addr, data);
                assert(self@ =~= write_bytes(old_view, addr as int, data@));
                true
            },
            None => false,
        }
    }

    pub fn write_byte(&mut self, addr: u64, v: u8) -> (r: bool)
        ensures
            final(self)@ == write_u8(old(self)@, addr as int, v),
            r == writable(old(self)@, addr as int, 1),
    {
        let data: Vec<u8> = vec![v];
        assert(data@ =~= seq![v]);
        self.write_bytes(addr, data.as_slice())
    }

    pub fn write_word(&mut self, addr: u64, v: u16) -> (r: bool)
        ensures
            final(self)@ == write_u16(old(self)@, addr as int, v),
            r == writable(old(self)@, addr as int, 2),
    {
        let data: Vec<u8> = vec![(v & 0xff) as u8, ((v >> 8) & 0xff) as u8];
        assert(data@ =~= u16_to_le(v));
        self.write_bytes(addr, data.as_slice())
    }

    pub fn write_dword(&mut self, addr: u64, v: u32) -> (r: bool)
        ensures
            final(self)@ == write_u32(old(self)@, addr as int, v),
            r == writable(old(self)@, addr as int, 4),
    {
        let data = u32_to_le_bytes(v);
        self.write_bytes(addr, data.as_slice())
    }

    pub fn write_qword(&mut self, addr: u64, v: u64) -> (r: bool)
        ensures
            final(self)@ == write_u64(old(self)@, addr as int, v),
            r == writable(old(self)@, addr as int, 8),
    {
        let data = u64_to_le_bytes(v);
        self.write_bytes(addr, data.as_slice())
    }

    /// The NUL-terminated UTF-16 string at `addr`.
    pub fn read_wide_string(&self, addr: u64) -> (r: String)
        ensures
            r@ == wide_string_at(self@, addr as int),
    {
        let mut out = String::new();
        let mut cur: u64 = addr;
        loop
            invariant
                addr <= cur,
                out@ + wide_string_at(self@, cur as int) == wide_string_at(self@, addr as int),
            decreases u64::MAX - cur,
        {
            if cur > u64::MAX - 1 {
                assert(wide_string_at(self@, cur as int) == Seq::<char>::empty());
                assert(out@ =~= out@ + Seq::<char>::empty());
                return out;
            }
            match self.read_word(cur) {
                Some(w) => {
                    if w == 0 {
                        assert(out@ =~= out@ + Seq::<char>::empty());
                        return out;
                    }
                    let c = decode_wide_char(w);
                    let ghost before = out@;
                    push_char(&mut out, c);
                    assert(before + wide_string_at(self@, cur as int) =~= out@
                        + wide_string_at(self@, cur + 2));
                    if cur == u64::MAX - 1 {
                        assert(wide_string_at(self@, cur + 2) == Seq::<char>::empty());
                        assert(out@ =~= out@ + Seq::<char>::empty());
                        return out;
                    }
                    cur = cur + 2;
                },
                None => {
                    assert(out@ =~= out@ + Seq::<char>::empty());
                    return out;
                },
            }
        }
    }

    /// The NUL-terminated byte string at `addr`, one character per byte.
    pub fn read_string(&self, addr: u64) -> (r: String)
        ensures
            r@ == byte_string_at(self@, addr as int),
    {
        let mut out = String::new();
        let mut cur: u64 = addr;
        loop
            invariant
                addr <= cur,
                out@ + byte_string_at(self@, cur as int) == byte_string_at(self@, addr as int),
            decreases u64::MAX - cur,
        {
            match self.read_byte(cur) {
                Some(b) => {
                    if b == 0 {
                        assert(out@ =~= out@ + Seq::<char>::empty());
                        return out;
                    }
                    let c = decode_byte_char(b);
                    let ghost before = out@;
                    push_char(&mut out, c);
                    assert(before + byte_string_at(self@, cur as int) =~= out@
                        + byte_string_at(self@, cur + 1));
                    if cur == u64::MAX {
                        assert(byte_string_at(self@, cur + 1) == Seq::<char>::empty());
                        assert(out@ =~= out@ + Seq::<char>::empty());
                        return out;
                    }
                    cur = cur + 1;
                },
                None => {
                    assert(out@ =~= out@ + Seq::<char>::empty());
                    return out;
                },
            }
        }
    }
}


impl Maps {
    /// Whether no map shares an address with the `n` bytes from `addr`.
    pub fn range_free(&self, addr: u64, n: u64) -> (r: bool)
        requires
            addr + n <= u64::MAX,
        ensures
            r == is_free(self@, addr as int, n as int),
    {
        let mut i: usize = 0;
        while i < self.maps.len()
            invariant
                addr + n <= u64::MAX,
                i <= self@.len(),
                self@.len() == self.maps@.len(),
                forall|j: int| 0 <= j < i ==> !(#[trigger] self@[j]).overlaps(addr as int, n as int),
            decreases self@.len() - i,
        {
            let base = self.maps[i].get_base();
            let size = self.maps[i].get_size();
            if size > 0 && base < addr + n && (addr < base || addr - base < size) {
                assert(self@[i as int].overlaps(addr as int, n as int));
                return false;
            }
            i += 1;
        }
        true
    }

    /// The lowest address from which `n` free bytes lie in `[lo, hi)`.
    pub fn lowest_free(&self, n: u64, lo: u64, hi: u64) -> (r: Option<u64>)
        ensures
            lowest_fit(self@, n as int, lo as int, hi as int, r),
    {
        let mut best: Option<u64> = None;
        if lo <= hi && n <= hi - lo && self.range_free(lo, n) {
            best = Some(lo);
        }
        let mut i: usize = 0;
        while i < self.maps.len()
            invariant
                i <= self@.len(),
                self@.len() == self.maps@.len(),
                best matches Some(b) ==> fits(self@, b as int, n as int, lo as int, hi as int),
                fits(self@, lo as int, n as int, lo as int, hi as int) ==> (best matches Some(b) && b
                    <= lo),
                forall|j: int|
                    0 <= j < i && fits(self@, (#[trigger] self@[j]).end(), n as int, lo as int, hi as int)
                        ==> (best matches Some(b) && b <= self@[j].end()),
            decreases self@.len() - i,
        {
            let base = self.maps[i].get_base();
            let size = self.maps[i].get_size();
            if base <= hi && size <= hi - base {
                let e = base + size;
                if e >= lo && n <= hi - e && self.range_free(e, n) {
                    match best {
                        Some(b) => {
                            if e < b {
                                best = Some(e);
                            }
                        },
                        None => {
                            best = Some(e);
                        },
                    }
                }
            }
            i += 1;
        }
        proof {
            match best {
                Some(b) => {
                    assert forall|a: int| fits(self@, a, n as int, lo as int, hi as int) implies b <= a by {
                        lemma_fit_has_candidate(self@, a, n as int, lo as int, hi as int);
                    }
                },
                None => {
                    assert forall|a: int| !fits(self@, a, n as int, lo as int, hi as int) by {
                        if fits(self@, a, n as int, lo as int, hi as int) {
                            lemma_fit_has_candidate(self@, a, n as int, lo as int, hi as int);
                        }
                    }
                },
            }
        }
        best
    }

    /// A free range of `size` bytes for loader structures: the lowest in
    /// `[LIB64_MIN, LIB64_MAX)`.
    pub fn lib64_alloc(&self, size: u64) -> (r: Option<u64>)
        ensures
            lowest_fit(self@, size as int, LIB64_MIN as int, LIB64_MAX as int, r),
            r == first_fit(self@, size as int, LIB64_MIN as int, LIB64_MAX as int),
    {
        let r = self.lowest_free(size, LIB64_MIN, LIB64_MAX);
        proof {
            lemma_lowest_fit_is_first_fit(self@, size as int, LIB64_MIN as int, LIB64_MAX as int, r);
        }
        r
    }

    /// A free range of `size` bytes: the lowest in `[ALLOC64_MIN, ALLOC64_MAX)`.
    pub fn alloc64(&self, size: u64) -> (r: Option<u64>)
        ensures
            lowest_fit(self@, size as int, ALLOC64_MIN as int, ALLOC64_MAX as int, r),
            r == first_fit(self@, size as int, ALLOC64_MIN as int, ALLOC64_MAX as int),
    {
        let r = self.lowest_free(size, ALLOC64_MIN, ALLOC64_MAX);
        proof {
            lemma_lowest_fit_is_first_fit(self@, size as int, ALLOC64_MIN as int, ALLOC64_MAX as int, r);
        }
        r
    }
}

} // verus!
