//! What loading an ELF64 image means: the header and program-header fields
//! read from the image bytes, the order in which the checks refuse an image,
//! and the destination bytes that a successful load leaves behind.
use vstd::prelude::*;

verus! {

/// Why an ELF image was refused.
#[derive(Debug, Clone, Copy, PartialEq, Eq, Structural)]
pub enum ElfError {
    InvalidHeader,
    Unsupported,
    Truncated,
    OutOfBounds,
    InvalidSegment,
    InvalidRelocation,
    MissingLoadSegment,
    InvalidEntry,
}

pub const EHDR_SIZE: u64 = 64;

pub const PHDR_SIZE: u64 = 56;

pub const EM_AARCH64: u16 = 183;

pub const ET_DYN: u16 = 3;

pub const EV_CURRENT: u32 = 1;

pub const PT_LOAD: u32 = 1;

pub const PT_DYNAMIC: u32 = 2;

pub const PT_INTERP: u32 = 3;

pub const PT_TLS: u32 = 7;

pub const PF_X: u32 = 1;

pub const PF_W: u32 = 2;

pub const DT_NULL: i64 = 0;

pub const DT_RELA: i64 = 7;

pub const DT_RELASZ: i64 = 8;

pub const DT_RELAENT: i64 = 9;

/// Size of one `Elf64_Rela` entry, and of one dynamic-table entry.
pub const RELA_SIZE: u64 = 24;

pub const DYN_SIZE: u64 = 16;

/// `r_info` of an `R_AARCH64_RELATIVE` relocation against symbol 0.
pub const R_AARCH64_RELATIVE_INFO: u64 = 1027;

/// At most this many `PT_LOAD` segments are accepted.
pub const MAX_LOADS: usize = 32;

/// One program header, with the fields the loader reads.
#[derive(Debug, Clone, Copy, PartialEq, Eq, Structural)]
pub struct ProgramHeader {
    pub p_type: u32,
    pub flags: u32,
    pub offset: u64,
    pub vaddr: u64,
    pub filesz: u64,
    pub memsz: u64,
    pub align: u64,
}

/// The fields of a valid ELF header that loading goes on with.
#[derive(Debug, Clone, Copy, PartialEq, Eq, Structural)]
pub struct ElfHeader {
    pub entry: u64,
    pub phoff: u64,
    pub phnum: u16,
}

/// The `DT_RELA`, `DT_RELASZ` and `DT_RELAENT` values a dynamic table gave,
/// the last one of each tag winning.
#[derive(Debug, Clone, Copy, PartialEq, Eq, Structural)]
pub struct RelaTags {
    pub table: Option<u64>,
    pub size: Option<u64>,
    pub entry_size: Option<u64>,
}

/// What a successful load does: the entry address it returns, the `PT_LOAD`
/// segments it copies (in program-header order) and the relocation fixups
/// `(offset, value)` it writes afterwards, in table order.
pub struct LoadPlan {
    pub entry: u64,
    pub loads: Seq<ProgramHeader>,
    pub fixups: Seq<(u64, u64)>,
}

// ---- Reading little-endian fields -------------------------------------------
pub open spec fn le_u16(b: Seq<u8>, off: int) -> int {
    b[off] + b[off + 1] * 0x100
}

pub open spec fn le_u32(b: Seq<u8>, off: int) -> int {
    b[off] + b[off + 1] * 0x100 + b[off + 2] * 0x1_0000 + b[off + 3] * 0x100_0000
}

pub open spec fn le_u64(b: Seq<u8>, off: int) -> int {
    le_u32(b, off) + le_u32(b, off + 4) * 0x1_0000_0000
}

/// The two's-complement `i64` stored little-endian at `off`.
pub open spec fn le_i64(b: Seq<u8>, off: int) -> i64 {
    (le_u64(b, off) as u64) as i64
}

/// The program header whose 56 bytes start at `off`.
pub open spec fn ph_at(b: Seq<u8>, off: int) -> ProgramHeader {
    ProgramHeader {
        p_type: le_u32(b, off) as u32,
        flags: le_u32(b, off + 4) as u32,
        offset: le_u64(b, off + 8) as u64,
        vaddr: le_u64(b, off + 16) as u64,
        filesz: le_u64(b, off + 32) as u64,
        memsz: le_u64(b, off + 40) as u64,
        align: le_u64(b, off + 48) as u64,
    }
}

// ---- Header ------------------------------------------------------------------
pub open spec fn has_elf64_le_ident(b: Seq<u8>) -> bool {
    &&& b[0] == 0x7f
    &&& b[1] == 0x45
    &&& b[2] == 0x4c
    &&& b[3] == 0x46
    &&& b[4] == 2
    &&& b[5] == 1
    &&& b[6] == 1
}

/// The header check: a 64-byte little-endian ELF64 header, version 1, for
/// AArch64, of type `ET_DYN`, with the standard header sizes and a program
/// header table that lies inside the image.
#[verifier::opaque]
pub open spec fn header_check(b: Seq<u8>) -> Result<ElfHeader, ElfError> {
    if b.len() < EHDR_SIZE {
        Err(ElfError::Truncated)
    } else if !has_elf64_le_ident(b) {
        Err(ElfError::InvalidHeader)
    } else if le_u16(b, 18) != EM_AARCH64 || le_u32(b, 20) != EV_CURRENT {
        Err(ElfError::InvalidHeader)
    } else if le_u16(b, 16) != ET_DYN {
        Err(ElfError::Unsupported)
    } else if le_u16(b, 52) != EHDR_SIZE || le_u16(b, 54) != PHDR_SIZE {
        Err(ElfError::InvalidHeader)
    } else if le_u64(b, 32) + le_u16(b, 56) * PHDR_SIZE > b.len() {
        Err(ElfError::Truncated)
    } else {
        Ok(
            ElfHeader {
                entry: le_u64(b, 24) as u64,
                phoff: le_u64(b, 32) as u64,
                phnum: le_u16(b, 56) as u16,
            },
        )
    }
}

/// A header that passes the check is a 64-byte little-endian ELF64 version 1
/// header of an AArch64 `ET_DYN` file with the standard header sizes and a
/// program header table inside the image; it gives the entry point, table
/// offset and count fields.
pub proof fn lemma_header_fields(b: Seq<u8>)
    requires
        header_check(b) is Ok,
    ensures
        b.len() >= EHDR_SIZE,
        has_elf64_le_ident(b),
        le_u16(b, 16) == ET_DYN,
        le_u16(b, 18) == EM_AARCH64,
        le_u32(b, 20) == EV_CURRENT,
        le_u16(b, 52) == EHDR_SIZE,
        le_u16(b, 54) == PHDR_SIZE,
        header_check(b)->Ok_0 == (ElfHeader {
            entry: le_u64(b, 24) as u64,
            phoff: le_u64(b, 32) as u64,
            phnum: le_u16(b, 56) as u16,
        }),
        le_u64(b, 32) + le_u16(b, 56) * PHDR_SIZE <= b.len(),
        header_check(b)->Ok_0.entry == le_u64(b, 24),
{
    reveal(header_check);
}

// ---- Program headers ----------------------------------------------------------
pub open spec fn is_power_of_two(x: nat) -> bool
    decreases x,
{
    if x == 1 {
        true
    } else if x == 0 || x % 2 == 1 {
        false
    } else {
        is_power_of_two(x / 2)
    }
}

/// The file bytes of `ph` lie in an image of `image_len` bytes and its memory
/// image in a destination of `dest_len` bytes.
pub open spec fn segment_in_bounds(ph: ProgramHeader, image_len: nat, dest_len: nat) -> bool {
    &&& ph.offset + ph.filesz <= image_len
    &&& ph.vaddr + ph.memsz <= dest_len
}

/// A segment that the scan keeps: file part no larger than memory part, and
/// both inside their buffers.
pub open spec fn segment_fits(ph: ProgramHeader, image_len: nat, dest_len: nat) -> bool {
    ph.filesz <= ph.memsz && segment_in_bounds(ph, image_len, dest_len)
}

/// Every segment of `loads` fits its buffers.
pub open spec fn segments_fit(loads: Seq<ProgramHeader>, image_len: nat, dest_len: nat) -> bool {
    forall|k: int| 0 <= k < loads.len() ==> segment_fits(#[trigger] loads[k], image_len, dest_len)
}

/// The error a `PT_LOAD` header is refused with, if any.
pub open spec fn load_segment_error(
    ph: ProgramHeader,
    image_len: nat,
    dest_len: nat,
    base: u64,
) -> Option<ElfError> {
    if ph.filesz > ph.memsz {
        Some(ElfError::InvalidSegment)
    } else if ph.offset + ph.filesz > image_len || ph.vaddr + ph.memsz > dest_len {
        Some(ElfError::OutOfBounds)
    } else if ph.align > 1 && !is_power_of_two(ph.align as nat) {
        Some(ElfError::InvalidSegment)
    } else if ph.align > 1 && ph.vaddr % ph.align != ph.offset % ph.align {
        Some(ElfError::InvalidSegment)
    } else if ph.align > 1 && base % ph.align != 0 {
        Some(ElfError::InvalidSegment)
    } else {
        None
    }
}

/// One step of the program-header scan: `loads` and `dynamic` are what the
/// earlier headers gave.
pub open spec fn scan_step(
    loads: Seq<ProgramHeader>,
    dynamic: Option<ProgramHeader>,
    ph: ProgramHeader,
    image_len: nat,
    dest_len: nat,
    base: u64,
) -> Result<(Seq<ProgramHeader>, Option<ProgramHeader>), ElfError> {
    if ph.p_type == PT_LOAD {
        match load_segment_error(ph, image_len, dest_len, base) {
            Some(e) => Err(e),
            None => if loads.len() == MAX_LOADS {
                Err(ElfError::Unsupported)
            } else {
                Ok((loads.push(ph), dynamic))
            },
        }
    } else if ph.p_type == PT_DYNAMIC {
        if dynamic is Some || ph.filesz > ph.memsz {
            Err(ElfError::InvalidSegment)
        } else if !segment_in_bounds(ph, image_len, dest_len) {
            Err(ElfError::OutOfBounds)
        } else {
            Ok((loads, Some(ph)))
        }
    } else if ph.p_type == PT_INTERP || ph.p_type == PT_TLS {
        Err(ElfError::Unsupported)
    } else {
        Ok((loads, dynamic))
    }
}

/// Scans program headers `i..n` of the table at `phoff`, going on from
/// `loads` and `dynamic`; the first refusal ends the scan.
pub open spec fn scan_from(
    b: Seq<u8>,
    dest_len: nat,
    base: u64,
    phoff: int,
    i: nat,
    n: nat,
    loads: Seq<ProgramHeader>,
    dynamic: Option<ProgramHeader>,
) -> Result<(Seq<ProgramHeader>, Option<ProgramHeader>), ElfError>
    decreases n - i,
{
    if i >= n {
        Ok((loads, dynamic))
    } else {
        match scan_step(loads, dynamic, ph_at(b, phoff + i * PHDR_SIZE), b.len(), dest_len, base) {
            Err(e) => Err(e),
            Ok((l, d)) => scan_from(b, dest_len, base, phoff, i + 1, n, l, d),
        }
    }
}

/// The `PT_LOAD` segments (in table order) and the `PT_DYNAMIC` segment of
/// the image, or why a program header was refused.
pub open spec fn scan_headers(b: Seq<u8>, dest_len: nat, base: u64, h: ElfHeader) -> Result<
    (Seq<ProgramHeader>, Option<ProgramHeader>),
    ElfError,
> {
    scan_from(b, dest_len, base, h.phoff as int, 0, h.phnum as nat, Seq::empty(), None)
}

// ---- Cross-segment checks -------------------------------------------------------
/// Segment `a` starts inside the memory range of segment `b`.
pub open spec fn starts_within(a: ProgramHeader, b: ProgramHeader) -> bool {
    b.vaddr <= a.vaddr < b.vaddr + b.memsz
}

/// Two distinct `PT_LOAD` segments claim the same memory: one starts inside
/// the other.
pub open spec fn segments_overlap(loads: Seq<ProgramHeader>) -> bool {
    exists|i: int, j: int|
        0 <= i < loads.len() && 0 <= j < loads.len() && i != j && #[trigger] starts_within(
            loads[i],
            loads[j],
        )
}

/// Load segment `s` holds the whole dynamic segment `d` in its memory range,
/// and `d`'s file bytes are exactly the file-backed bytes `s` maps there.
pub open spec fn maps_dynamic(s: ProgramHeader, d: ProgramHeader) -> bool {
    &&& s.vaddr <= d.vaddr
    &&& d.vaddr + d.memsz <= s.vaddr + s.memsz
    &&& d.vaddr + d.filesz <= s.vaddr + s.filesz
    &&& s.offset + (d.vaddr - s.vaddr) == d.offset
}

pub open spec fn dynamic_mapped(loads: Seq<ProgramHeader>, d: ProgramHeader) -> bool {
    exists|i: int| 0 <= i < loads.len() && #[trigger] maps_dynamic(loads[i], d)
}

/// Executable segment `s` holds, in its file-backed bytes, the whole 4-byte
/// instruction at `entry`.
pub open spec fn holds_entry(s: ProgramHeader, entry: u64) -> bool {
    &&& s.flags & PF_X != 0
    &&& s.vaddr <= entry
    &&& entry + 4 <= s.vaddr + s.filesz
}

/// The entry point is 4-byte aligned both as an offset and once loaded at
/// `base`, and its first instruction lies in an executable segment.
pub open spec fn entry_valid(loads: Seq<ProgramHeader>, entry: u64, base: u64) -> bool {
    &&& base + entry <= u64::MAX
    &&& entry % 4 == 0
    &&& (base + entry) % 4 == 0
    &&& exists|i: int| 0 <= i < loads.len() && #[trigger] holds_entry(loads[i], entry)
}

// ---- Dynamic table ----------------------------------------------------------------
/// Tags that ask for more than `R_AARCH64_RELATIVE` fixups: `DT_NEEDED`,
/// `DT_REL`, `DT_RELSZ`, `DT_RELENT`, `DT_TEXTREL`, `DT_JMPREL`, `DT_RELRSZ`,
/// `DT_RELR`, `DT_RELRENT`.
pub open spec fn unsupported_tag(tag: i64) -> bool {
    tag == 1 || tag == 17 || tag == 18 || tag == 19 || tag == 22 || tag == 23 || tag == 35 || tag
        == 36 || tag == 37
}

/// Scans the 16-byte dynamic entries from `off` up to `end` (both image
/// offsets), going on from `t`, until `DT_NULL`.
pub open spec fn dynamic_tags_from(b: Seq<u8>, off: int, end: int, t: RelaTags) -> Result<
    RelaTags,
    ElfError,
>
    decreases end - off,
{
    if off + DYN_SIZE > end {
        Err(ElfError::InvalidRelocation)
    } else {
        let tag = le_i64(b, off);
        let val = le_u64(b, off + 8) as u64;
        if tag == DT_NULL {
            Ok(t)
        } else if tag == DT_RELA {
            dynamic_tags_from(b, off + DYN_SIZE, end, RelaTags { table: Some(val), ..t })
        } else if tag == DT_RELASZ {
            dynamic_tags_from(b, off + DYN_SIZE, end, RelaTags { size: Some(val), ..t })
        } else if tag == DT_RELAENT {
            dynamic_tags_from(b, off + DYN_SIZE, end, RelaTags { entry_size: Some(val), ..t })
        } else if unsupported_tag(tag) {
            Err(ElfError::Unsupported)
        } else {
            dynamic_tags_from(b, off + DYN_SIZE, end, t)
        }
    }
}

pub open spec fn no_rela_tags() -> RelaTags {
    RelaTags { table: None, size: None, entry_size: None }
}

/// The RELA tags of the dynamic segment, if there is one.
pub open spec fn dynamic_tags(b: Seq<u8>, dynamic: Option<ProgramHeader>) -> Result<
    RelaTags,
    ElfError,
> {
    match dynamic {
        None => Ok(no_rela_tags()),
        Some(d) => dynamic_tags_from(b, d.offset as int, d.offset + d.filesz, no_rela_tags()),
    }
}

/// The RELA table `(address, size)`: all three tags or none, with 24-byte
/// entries and a size that is a whole number of them.
pub open spec fn rela_table(t: RelaTags) -> Result<Option<(u64, u64)>, ElfError> {
    match (t.table, t.size, t.entry_size) {
        (None, None, None) => Ok(None),
        (Some(v), Some(sz), Some(ent)) => if ent != RELA_SIZE || sz % RELA_SIZE != 0 {
            Err(ElfError::InvalidRelocation)
        } else {
            Ok(Some((v, sz)))
        },
        _ => Err(ElfError::InvalidRelocation),
    }
}

// ---- Relocations ------------------------------------------------------------------
/// `[vaddr, vaddr + len)` lies in the memory range of a load segment.
pub open spec fn in_any_load(loads: Seq<ProgramHeader>, vaddr: int, len: int) -> bool {
    exists|i: int|
        0 <= i < loads.len() && #[trigger] loads[i].vaddr <= vaddr && vaddr + len
            <= loads[i].vaddr + loads[i].memsz
}

/// `[vaddr, vaddr + len)` lies in the memory range of a load segment whose
/// flags include `flag`.
pub open spec fn in_load_with(loads: Seq<ProgramHeader>, vaddr: int, len: int, flag: u32) -> bool {
    exists|i: int|
        0 <= i < loads.len() && #[trigger] loads[i].flags & flag != 0 && loads[i].vaddr <= vaddr
            && vaddr + len <= loads[i].vaddr + loads[i].memsz
}

/// The image offset of the 24 bytes at virtual address `vaddr`, taken from
/// the first load segment that maps them from the file.
pub open spec fn file_position(loads: Seq<ProgramHeader>, vaddr: int) -> Option<int>
    decreases loads.len(),
{
    if loads.len() == 0 {
        None
    } else if loads[0].vaddr <= vaddr && vaddr + RELA_SIZE <= loads[0].vaddr + loads[0].filesz {
        Some(loads[0].offset + (vaddr - loads[0].vaddr))
    } else {
        file_position(loads.drop_first(), vaddr)
    }
}

/// Ranges `(vaddr, len)` that relocations must not write into: the dynamic
/// segment and the RELA table, which are read while fixups are found.
pub open spec fn protected_ranges(dynamic: Option<ProgramHeader>, table: u64, size: u64) -> Seq<
    (u64, u64),
> {
    match dynamic {
        Some(d) => seq![(d.vaddr, d.memsz), (table, size)],
        None => seq![(table, size)],
    }
}

/// The 8 bytes at `target` meet a non-empty protected range.
pub open spec fn hits_protected(prot: Seq<(u64, u64)>, target: int) -> bool {
    exists|i: int|
        0 <= i < prot.len() && #[trigger] prot[i].1 != 0 && target < prot[i].0 + prot[i].1
            && prot[i].0 < target + 8
}

/// The fixup `(offset, value)` that the RELA entry at virtual address `eoff`
/// asks for, or why it is refused: it must be read from file-backed bytes,
/// be `R_AARCH64_RELATIVE`, target 8 aligned bytes of a writable segment
/// outside the protected ranges, and have a non-negative addend that points
/// into (or just past) a load segment and that can be added to `base`.
pub open spec fn relocation_fixup(
    b: Seq<u8>,
    loads: Seq<ProgramHeader>,
    base: u64,
    prot: Seq<(u64, u64)>,
    eoff: int,
) -> Result<(u64, u64), ElfError> {
    match file_position(loads, eoff) {
        None => Err(ElfError::InvalidRelocation),
        Some(fp) => {
            let r_offset = le_u64(b, fp) as u64;
            let r_info = le_u64(b, fp + 8) as u64;
            let addend = le_i64(b, fp + 16);
            if r_info != R_AARCH64_RELATIVE_INFO {
                Err(ElfError::InvalidRelocation)
            } else if r_offset % 8 != 0 || !in_load_with(loads, r_offset as int, 8, PF_W) {
                Err(ElfError::InvalidRelocation)
            } else if hits_protected(prot, r_offset as int) {
                Err(ElfError::InvalidRelocation)
            } else if addend < 0 || !in_any_load(loads, addend as int, 0) || base + addend
                > u64::MAX {
                Err(ElfError::InvalidRelocation)
            } else {
                Ok((r_offset, (base + addend) as u64))
            }
        },
    }
}

/// The fixups of RELA entries `k..count` of the table at `table`, appended
/// to `acc`; the first refused entry ends the walk.
pub open spec fn fixups_from(
    b: Seq<u8>,
    loads: Seq<ProgramHeader>,
    base: u64,
    prot: Seq<(u64, u64)>,
    table: u64,
    k: nat,
    count: nat,
    acc: Seq<(u64, u64)>,
) -> Result<Seq<(u64, u64)>, ElfError>
    decreases count - k,
{
    if k >= count {
        Ok(acc)
    } else {
        match relocation_fixup(b, loads, base, prot, table + k * RELA_SIZE) {
            Err(e) => Err(e),
            Ok(f) => fixups_from(b, loads, base, prot, table, k + 1, count, acc.push(f)),
        }
    }
}

/// The fixups of the RELA table, or why it was refused; the table itself
/// must lie in loaded memory.
pub open spec fn relocation_fixups(
    b: Seq<u8>,
    loads: Seq<ProgramHeader>,
    dynamic: Option<ProgramHeader>,
    base: u64,
    rela: Option<(u64, u64)>,
) -> Result<Seq<(u64, u64)>, ElfError> {
    match rela {
        None => Ok(Seq::empty()),
        Some((table, size)) => if !in_any_load(loads, table as int, size as int) {
            Err(ElfError::InvalidRelocation)
        } else {
            fixups_from(
                b,
                loads,
                base,
                protected_ranges(dynamic, table, size),
                table,
                0,
                (size / RELA_SIZE) as nat,
                Seq::empty(),
            )
        },
    }
}

// ---- The whole load ----------------------------------------------------------------
/// The checks that need all segments at once, after the scan.
pub open spec fn segment_layout_error(
    loads: Seq<ProgramHeader>,
    dynamic: Option<ProgramHeader>,
    entry: u64,
    base: u64,
) -> Option<ElfError> {
    if loads.len() == 0 {
        Some(ElfError::MissingLoadSegment)
    } else if segments_overlap(loads) {
        Some(ElfError::InvalidSegment)
    } else if dynamic matches Some(d) && !dynamic_mapped(loads, d) {
        Some(ElfError::InvalidSegment)
    } else if !entry_valid(loads, entry, base) {
        Some(ElfError::InvalidEntry)
    } else {
        None
    }
}

/// Loading the image `b` into a destination of `dest_len` bytes that starts
/// at address `base`: what the load does, or the first reason it refuses.
pub open spec fn load_plan(b: Seq<u8>, dest_len: nat, base: u64) -> Result<LoadPlan, ElfError> {
    match header_check(b) {
        Err(e) => Err(e),
        Ok(h) => match scan_headers(b, dest_len, base, h) {
            Err(e) => Err(e),
            Ok((loads, dynamic)) => match segment_layout_error(loads, dynamic, h.entry, base) {
                Some(e) => Err(e),
                None => match dynamic_tags(b, dynamic) {
                    Err(e) => Err(e),
                    Ok(t) => match rela_table(t) {
                        Err(e) => Err(e),
                        Ok(rela) => match relocation_fixups(b, loads, dynamic, base, rela) {
                            Err(e) => Err(e),
                            Ok(fixups) => Ok(
                                LoadPlan { entry: (base + h.entry) as u64, loads, fixups },
                            ),
                        },
                    },
                },
            },
        },
    }
}

/// `d` with segment `s` in place: its file bytes copied from `b` and the rest
/// of its memory range zeroed.
pub open spec fn place_segment(d: Seq<u8>, b: Seq<u8>, s: ProgramHeader) -> Seq<u8> {
    Seq::new(
        d.len(),
        |i: int|
            if s.vaddr <= i < s.vaddr + s.filesz {
                b[s.offset + (i - s.vaddr)]
            } else if s.vaddr + s.filesz <= i < s.vaddr + s.memsz {
                0u8
            } else {
                d[i]
            },
    )
}

/// `d` with the segments placed one after another, in order.
pub open spec fn place_segments(d: Seq<u8>, b: Seq<u8>, loads: Seq<ProgramHeader>) -> Seq<u8>
    decreases loads.len(),
{
    if loads.len() == 0 {
        d
    } else {
        place_segment(place_segments(d, b, loads.drop_last()), b, loads.last())
    }
}

/// Byte `j` of the little-endian encoding of `v`.
pub open spec fn le_byte(v: u64, j: u64) -> u8 {
    ((v >> (8 * j)) & 0xff) as u8
}

/// `d` with the little-endian encoding of `v` written at `off`.
pub open spec fn write_u64_le(d: Seq<u8>, off: int, v: u64) -> Seq<u8> {
    Seq::new(d.len(), |i: int| if off <= i < off + 8 { le_byte(v, (i - off) as u64) } else { d[i] })
}

/// `d` with the fixups written one after another, in order.
pub open spec fn apply_fixups(d: Seq<u8>, fixups: Seq<(u64, u64)>) -> Seq<u8>
    decreases fixups.len(),
{
    if fixups.len() == 0 {
        d
    } else {
        write_u64_le(apply_fixups(d, fixups.drop_last()), fixups.last().0 as int, fixups.last().1)
    }
}

/// The destination after a successful load that started from `d`.
pub open spec fn loaded_image(d: Seq<u8>, b: Seq<u8>, plan: LoadPlan) -> Seq<u8> {
    apply_fixups(place_segments(d, b, plan.loads), plan.fixups)
}

/// Loading `b` at `base` into `before` returns `r` and leaves `after`:
/// on success the planned entry and image, on refusal the error and the
/// destination untouched.
pub open spec fn load_outcome(
    b: Seq<u8>,
    before: Seq<u8>,
    base: u64,
    r: Result<u64, ElfError>,
    after: Seq<u8>,
) -> bool {
    match load_plan(b, before.len(), base) {
        Ok(plan) => r == Ok::<u64, ElfError>(plan.entry) && after == loaded_image(before, b, plan),
        Err(e) => r == Err::<u64, ElfError>(e) && after == before,
    }
}

} // verus!
