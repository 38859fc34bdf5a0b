//! Bounded ELF64 loader for position-independent AArch64 user programs.
//!
//! `load_elf_at` validates an image completely before it writes a single byte
//! of the destination; it then copies every `PT_LOAD` segment, zero-fills its
//! `bss` tail and applies the `R_AARCH64_RELATIVE` relocations that a program
//! linked at virtual address 0 needs once it runs at `base`.
use vstd::prelude::*;

use crate::elf_spec::{
    apply_fixups, dynamic_mapped, dynamic_tags, dynamic_tags_from, entry_valid, file_position,
    fixups_from, header_check, hits_protected, holds_entry, in_any_load, in_load_with,
    is_power_of_two, le_byte, le_i64, le_u16, le_u32, le_u64, lemma_header_fields, load_outcome,
    load_segment_error, maps_dynamic, ph_at, place_segment, place_segments, protected_ranges,
    rela_table, relocation_fixup, relocation_fixups, scan_from, scan_headers, segment_fits,
    segments_fit, segments_overlap, starts_within, unsupported_tag, write_u64_le, ElfError,
    ElfHeader, ProgramHeader, RelaTags, DT_NULL, DT_RELA, DT_RELAENT, DT_RELASZ, EHDR_SIZE,
    EM_AARCH64, ET_DYN, EV_CURRENT, MAX_LOADS, PF_W, PF_X, PHDR_SIZE, PT_DYNAMIC, PT_INTERP,
    PT_LOAD, PT_TLS, RELA_SIZE, R_AARCH64_RELATIVE_INFO,
};

verus! {

/// Reads the little-endian `u16` at byte offset `off` of `b`.
pub fn u16_at(b: &[u8], off: usize) -> (r: Result<u16, ElfError>)
    ensures
        off + 2 <= b@.len() ==> r == Ok::<u16, ElfError>(le_u16(b@, off as int) as u16),
        off + 2 > b@.len() ==> r == Err::<u16, ElfError>(ElfError::Truncated),
{
    if b.len() < 2 || off > b.len() - 2 {
        return Err(ElfError::Truncated);
    }
    Ok(b[off] as u16 + (b[off + 1] as u16) * 0x100)
}

/// Reads the little-endian `u32` at byte offset `off` of `b`.
pub fn u32_at(b: &[u8], off: usize) -> (r: Result<u32, ElfError>)
    ensures
        off + 4 <= b@.len() ==> r == Ok::<u32, ElfError>(le_u32(b@, off as int) as u32),
        off + 4 > b@.len() ==> r == Err::<u32, ElfError>(ElfError::Truncated),
{
    if b.len() < 4 || off > b.len() - 4 {
        return Err(ElfError::Truncated);
    }
    Ok(b[off] as u32 + (b[off + 1] as u32) * 0x100 + (b[off + 2] as u32) * 0x1_0000 + (b[off
        + 3] as u32) * 0x100_0000)
}

/// Reads the little-endian `u64` at byte offset `off` of `b`.
pub fn u64_at(b: &[u8], off: usize) -> (r: Result<u64, ElfError>)
    ensures
        off + 8 <= b@.len() ==> r == Ok::<u64, ElfError>(le_u64(b@, off as int) as u64),
        off + 8 > b@.len() ==> r == Err::<u64, ElfError>(ElfError::Truncated),
{
    if b.len() < 8 || off > b.len() - 8 {
        return Err(ElfError::Truncated);
    }
    let lo = b[off] as u64 + (b[off + 1] as u64) * 0x100 + (b[off + 2] as u64) * 0x1_0000 + (b[off
        + 3] as u64) * 0x100_0000;
    let hi = b[off + 4] as u64 + (b[off + 5] as u64) * 0x100 + (b[off + 6] as u64) * 0x1_0000 + (b[off
        + 7] as u64) * 0x100_0000;
    Ok(lo + hi * 0x1_0000_0000)
}

/// Reads the little-endian `i64` (two's complement) at byte offset `off` of `b`.
pub fn i64_at(b: &[u8], off: usize) -> (r: Result<i64, ElfError>)
    ensures
        off + 8 <= b@.len() ==> r == Ok::<i64, ElfError>(le_i64(b@, off as int)),
        off + 8 > b@.len() ==> r == Err::<i64, ElfError>(ElfError::Truncated),
{
    let v = u64_at(b, off)?;
    Ok(v as i64)
}

/// Checks the ELF header of `image` and returns the fields loading goes on with.
pub fn parse_header(image: &[u8]) -> (r: Result<ElfHeader, ElfError>)
    ensures
        r == header_check(image@),
{
    reveal(header_check);
    if image.len() < 64 {
        return Err(ElfError::Truncated);
    }
    if image[0] != 0x7f || image[1] != 0x45 || image[2] != 0x4c || image[3] != 0x46 || image[4]
        != 2 || image[5] != 1 || image[6] != 1 {
        return Err(ElfError::InvalidHeader);
    }
    let e_type = u16_at(image, 16)?;
    let e_machine = u16_at(image, 18)?;
    let e_version = u32_at(image, 20)?;
    if e_machine != EM_AARCH64 || e_version != EV_CURRENT {
        return Err(ElfError::InvalidHeader);
    }
    if e_type != ET_DYN {
        return Err(ElfError::Unsupported);
    }
    let e_entry = u64_at(image, 24)?;
    let e_phoff = u64_at(image, 32)?;
    let e_ehsize = u16_at(image, 52)?;
    let e_phentsize = u16_at(image, 54)?;
    let e_phnum = u16_at(image, 56)?;
    if e_ehsize as u64 != EHDR_SIZE || e_phentsize as u64 != PHDR_SIZE {
        return Err(ElfError::InvalidHeader);
    }
    let table_size = e_phnum as u64 * PHDR_SIZE;
    if e_phoff > image.len() as u64 || table_size > image.len() as u64 - e_phoff {
        return Err(ElfError::Truncated);
    }
    Ok(ElfHeader { entry: e_entry, phoff: e_phoff, phnum: e_phnum })
}

/// Reads the program header whose 56 bytes start at `off`.
pub fn read_program_header(image: &[u8], off: usize) -> (ph: ProgramHeader)
    requires
        off + PHDR_SIZE <= image@.len(),
    ensures
        ph == ph_at(image@, off as int),
{
    let image_len = image.len();
    assert(off + PHDR_SIZE <= image_len);
    let p_type = u32_at(image, off);
    let flags = u32_at(image, off + 4);
    let offset = u64_at(image, off + 8);
    let vaddr = u64_at(image, off + 16);
    let filesz = u64_at(image, off + 32);
    let memsz = u64_at(image, off + 40);
    let align = u64_at(image, off + 48);
    match (p_type, flags, offset, vaddr, filesz, memsz, align) {
        (Ok(p_type), Ok(flags), Ok(offset), Ok(vaddr), Ok(filesz), Ok(memsz), Ok(align)) => {
            ProgramHeader { p_type, flags, offset, vaddr, filesz, memsz, align }
        },
        _ => {
            proof {
                assert(false);
            }
            ProgramHeader { p_type: 0, flags: 0, offset: 0, vaddr: 0, filesz: 0, memsz: 0, align: 1 }
        },
    }
}

/// Whether `x` is a power of two.
pub fn power_of_two(x: u64) -> (r: bool)
    ensures
        r == is_power_of_two(x as nat),
{
    let mut v = x;
    while v > 1 && v % 2 == 0
        invariant
            is_power_of_two(v as nat) == is_power_of_two(x as nat),
        decreases v,
    {
        v = v / 2;
    }
    v == 1
}

/// The error a `PT_LOAD` header is refused with, if any.
fn check_load_segment(ph: ProgramHeader, image_len: u64, dest_len: u64, base: u64) -> (r: Option<
    ElfError,
>)
    ensures
        r == load_segment_error(ph, image_len as nat, dest_len as nat, base),
{
    if ph.filesz > ph.memsz {
        return Some(ElfError::InvalidSegment);
    }
    if ph.offset > image_len || ph.filesz > image_len - ph.offset || ph.vaddr > dest_len
        || ph.memsz > dest_len - ph.vaddr {
        return Some(ElfError::OutOfBounds);
    }
    if ph.align > 1 {
        if !power_of_two(ph.align) {
            return Some(ElfError::InvalidSegment);
        }
        if ph.vaddr % ph.align != ph.offset % ph.align {
            return Some(ElfError::InvalidSegment);
        }
        if base % ph.align != 0 {
            return Some(ElfError::InvalidSegment);
        }
    }
    None
}

/// Scans the program header table: returns the `PT_LOAD` segments in table
/// order and the `PT_DYNAMIC` segment, or the first header's refusal.
pub fn scan_program_headers(image: &[u8], dest_len: usize, base: u64, h: ElfHeader) -> (r: Result<
    (Vec<ProgramHeader>, Option<ProgramHeader>),
    ElfError,
>)
    requires
        h.phoff + h.phnum * PHDR_SIZE <= image@.len(),
    ensures
        match scan_headers(image@, dest_len as nat, base, h) {
            Ok((l, d)) => r matches Ok((lv, dv)) && lv@ == l && dv == d,
            Err(e) => r == Err::<(Vec<ProgramHeader>, Option<ProgramHeader>), ElfError>(e),
        },
        r matches Ok((lv, dv)) ==> {
            &&& lv@.len() <= MAX_LOADS
            &&& forall|k: int|
                0 <= k < lv@.len() ==> segment_fits(
                    #[trigger] lv@[k],
                    image@.len(),
                    dest_len as nat,
                )
            &&& dv matches Some(d) ==> segment_fits(d, image@.len(), dest_len as nat)
        },
{
    let image_len = image.len() as u64;
    let dl = dest_len as u64;
    let mut loads: Vec<ProgramHeader> = Vec::new();
    let mut dynamic: Option<ProgramHeader> = None;
    let mut i: u16 = 0;
    while i < h.phnum
        invariant
            h.phoff + h.phnum * PHDR_SIZE <= image@.len(),
            image_len == image@.len(),
            image@.len() == image.len(),
            dl == dest_len,
            i <= h.phnum,
            scan_from(image@, dest_len as nat, base, h.phoff as int, i as nat, h.phnum as nat, loads@, dynamic)
                == scan_headers(image@, dest_len as nat, base, h),
            loads@.len() <= MAX_LOADS,
            forall|k: int|
                0 <= k < loads@.len() ==> segment_fits(#[trigger] loads@[k], image@.len(), dest_len as nat),
            dynamic matches Some(d) ==> segment_fits(d, image@.len(), dest_len as nat),
        decreases h.phnum - i,
    {
        let off = h.phoff as usize + i as usize * 56;
        let ph = read_program_header(image, off);
        let ghost old_loads = loads@;
        if ph.p_type == PT_LOAD {
            if let Some(e) = check_load_segment(ph, image_len, dl, base) {
                return Err(e);
            }
            if loads.len() == MAX_LOADS {
                return Err(ElfError::Unsupported);
            }
            loads.push(ph);
            assert(loads@ == old_loads.push(ph));
        } else if ph.p_type == PT_DYNAMIC {
            if dynamic.is_some() || ph.filesz > ph.memsz {
                return Err(ElfError::InvalidSegment);
            }
            if ph.offset > image_len || ph.filesz > image_len - ph.offset || ph.vaddr > dl
                || ph.memsz > dl - ph.vaddr {
                return Err(ElfError::OutOfBounds);
            }
            dynamic = Some(ph);
        } else if ph.p_type == PT_INTERP || ph.p_type == PT_TLS {
            return Err(ElfError::Unsupported);
        }
        i = i + 1;
    }
    Ok((loads, dynamic))
}

/// Whether two distinct load segments claim the same memory.
pub fn any_segments_overlap(loads: &Vec<ProgramHeader>) -> (r: bool)
    ensures
        r == segments_overlap(loads@),
{
    let n = loads.len();
    let mut i: usize = 0;
    while i < n
        invariant
            n == loads@.len(),
            i <= n,
            forall|a: int, b: int|
                0 <= a < i && 0 <= b < n && a != b ==> !starts_within(loads@[a], loads@[b]),
        decreases n - i,
    {
        let mut j: usize = 0;
        while j < n
            invariant
                n == loads@.len(),
                i < n,
                j <= n,
                forall|a: int, b: int|
                    0 <= a < i && 0 <= b < n && a != b ==> !starts_within(loads@[a], loads@[b]),
                forall|b: int| 0 <= b < j && i != b ==> !starts_within(loads@[i as int], loads@[b]),
            decreases n - j,
        {
            let a = loads[i];
            let b = loads[j];
            if i != j && b.vaddr <= a.vaddr && a.vaddr - b.vaddr < b.memsz {
                assert(starts_within(loads@[i as int], loads@[j as int]));
                return true;
            }
            j = j + 1;
        }
        i = i + 1;
    }
    false
}

/// Whether some load segment maps the whole dynamic segment `d`, from the
/// same file bytes.
pub fn dynamic_is_mapped(loads: &Vec<ProgramHeader>, d: ProgramHeader, dest_len: usize) -> (r: bool)
    requires
        forall|k: int|
            0 <= k < loads@.len() ==> #[trigger] loads@[k].vaddr + loads@[k].memsz <= dest_len
                && loads@[k].filesz <= loads@[k].memsz,
        d.vaddr + d.memsz <= dest_len,
        d.filesz <= d.memsz,
    ensures
        r == dynamic_mapped(loads@, d),
        r <==> exists|k: int|
            0 <= k < loads@.len() && #[trigger] loads@[k].vaddr <= d.vaddr && d.vaddr + d.memsz
                <= loads@[k].vaddr + loads@[k].memsz && d.vaddr + d.filesz <= loads@[k].vaddr
                + loads@[k].filesz && loads@[k].offset + (d.vaddr - loads@[k].vaddr) == d.offset,
{
    let n = loads.len();
    let mut i: usize = 0;
    while i < n
        invariant
            n == loads@.len(),
            i <= n,
            forall|k: int|
                0 <= k < loads@.len() ==> #[trigger] loads@[k].vaddr + loads@[k].memsz <= dest_len
                    && loads@[k].filesz <= loads@[k].memsz,
            d.vaddr + d.memsz <= dest_len,
            d.filesz <= d.memsz,
            forall|k: int| 0 <= k < i ==> !maps_dynamic(#[trigger] loads@[k], d),
        decreases n - i,
    {
        let s = loads[i];
        assert(s.vaddr + s.memsz <= dest_len);
        if d.vaddr >= s.vaddr && d.vaddr + d.memsz <= s.vaddr + s.memsz && d.vaddr + d.filesz
            <= s.vaddr + s.filesz && d.offset >= s.offset && d.offset - s.offset == d.vaddr
            - s.vaddr {
            assert(maps_dynamic(loads@[i as int], d));
            return true;
        }
        i = i + 1;
    }
    false
}

/// Whether the entry point is valid for the segments loaded at `base`.
pub fn entry_is_valid(loads: &Vec<ProgramHeader>, entry: u64, base: u64) -> (r: bool)
    ensures
        r == entry_valid(loads@, entry, base),
{
    if base > u64::MAX - entry {
        return false;
    }
    if entry % 4 != 0 || (base + entry) % 4 != 0 {
        return false;
    }
    let n = loads.len();
    let mut i: usize = 0;
    while i < n
        invariant
            n == loads@.len(),
            i <= n,
            base + entry <= u64::MAX,
            entry % 4 == 0,
            (base + entry) % 4 == 0,
            forall|k: int| 0 <= k < i ==> !holds_entry(#[trigger] loads@[k], entry),
        decreases n - i,
    {
        let s = loads[i];
        if s.flags & PF_X != 0 && entry >= s.vaddr && entry - s.vaddr <= s.filesz && s.filesz - (
        entry - s.vaddr) >= 4 {
            assert(holds_entry(loads@[i as int], entry));
            return true;
        }
        i = i + 1;
    }
    false
}

/// Whether `tag` asks for more than `R_AARCH64_RELATIVE` fixups.
fn is_unsupported_tag(tag: i64) -> (r: bool)
    ensures
        r == unsupported_tag(tag),
        r <==> (tag == 1 || tag == 17 || tag == 18 || tag == 19 || tag == 22 || tag == 23 || tag
            == 35 || tag == 36 || tag == 37),
{
    tag == 1 || tag == 17 || tag == 18 || tag == 19 || tag == 22 || tag == 23 || tag == 35 || tag
        == 36 || tag == 37
}

/// Reads the RELA tags of the dynamic segment `d`, up to its `DT_NULL`.
pub fn scan_dynamic(image: &[u8], d: ProgramHeader) -> (r: Result<RelaTags, ElfError>)
    requires
        d.offset + d.filesz <= image@.len(),
    ensures
        r == dynamic_tags(image@, Some(d)),
{
    let image_len = image.len();
    assert(d.offset + d.filesz <= image_len);
    let start = d.offset as usize;
    let end = (d.offset + d.filesz) as usize;
    let mut off = start;
    let mut t = RelaTags { table: None, size: None, entry_size: None };
    loop
        invariant
            start == d.offset,
            end == d.offset + d.filesz,
            end <= image@.len(),
            off <= end,
            dynamic_tags_from(image@, off as int, end as int, t) == dynamic_tags(image@, Some(d)),
        decreases end - off,
    {
        if end - off < 16 {
            return Err(ElfError::InvalidRelocation);
        }
        let tag = i64_at(image, off)?;
        let val = u64_at(image, off + 8)?;
        let next = off + 16;
        if tag == DT_NULL {
            return Ok(t);
        } else if tag == DT_RELA {
            t = RelaTags { table: Some(val), ..t };
        } else if tag == DT_RELASZ {
            t = RelaTags { size: Some(val), ..t };
        } else if tag == DT_RELAENT {
            t = RelaTags { entry_size: Some(val), ..t };
        } else if is_unsupported_tag(tag) {
            return Err(ElfError::Unsupported);
        }
        off = next;
    }
}

/// The RELA table `(address, size)` the tags describe, if any.
pub fn check_rela_tags(t: RelaTags) -> (r: Result<Option<(u64, u64)>, ElfError>)
    ensures
        r == rela_table(t),
{
    match (t.table, t.size, t.entry_size) {
        (None, None, None) => Ok(None),
        (Some(v), Some(sz), Some(ent)) => {
            if ent != RELA_SIZE || sz % RELA_SIZE != 0 {
                Err(ElfError::InvalidRelocation)
            } else {
                Ok(Some((v, sz)))
            }
        },
        _ => Err(ElfError::InvalidRelocation),
    }
}

/// Whether `[vaddr, vaddr + len)` lies in the memory range of a load
/// segment.
pub fn within_any_load(loads: &Vec<ProgramHeader>, vaddr: u64, len: u64) -> (r: bool)
    ensures
        r == in_any_load(loads@, vaddr as int, len as int),
{
    let n = loads.len();
    let mut i: usize = 0;
    while i < n
        invariant
            n == loads@.len(),
            i <= n,
            forall|k: int|
                0 <= k < i ==> !(#[trigger] loads@[k].vaddr <= vaddr && vaddr + len <= loads@[k].vaddr
                    + loads@[k].memsz),
        decreases n - i,
    {
        let s = loads[i];
        if vaddr >= s.vaddr && vaddr - s.vaddr <= s.memsz && len <= s.memsz - (vaddr - s.vaddr) {
            return true;
        }
        i = i + 1;
    }
    false
}

/// Whether `[vaddr, vaddr + len)` lies in the memory range of a load
/// segment whose flags include `flag`.
pub fn within_load_with(loads: &Vec<ProgramHeader>, vaddr: u64, len: u64, flag: u32) -> (r: bool)
    ensures
        r == in_load_with(loads@, vaddr as int, len as int, flag),
{
    let n = loads.len();
    let mut i: usize = 0;
    while i < n
        invariant
            n == loads@.len(),
            i <= n,
            forall|k: int|
                0 <= k < i ==> !(#[trigger] loads@[k].flags & flag != 0 && loads@[k].vaddr <= vaddr
                    && vaddr + len <= loads@[k].vaddr + loads@[k].memsz),
        decreases n - i,
    {
        let s = loads[i];
        if s.flags & flag != 0 && vaddr >= s.vaddr && vaddr - s.vaddr <= s.memsz && len <= s.memsz
            - (vaddr - s.vaddr) {
            return true;
        }
        i = i + 1;
    }
    false
}

/// The image offset of the RELA entry at virtual address `vaddr`, from the
/// first load segment that maps its 24 bytes from the file.
pub fn find_file_position(loads: &Vec<ProgramHeader>, vaddr: u64, image_len: usize) -> (r: Option<
    u64,
>)
    requires
        segments_fit(loads@, image_len as nat, u64::MAX as nat),
    ensures
        match file_position(loads@, vaddr as int) {
            Some(p) => r == Some(p as u64) && p <= u64::MAX,
            None => r is None,
        },
{
    let n = loads.len();
    let mut i: usize = 0;
    assert(loads@.skip(0) =~= loads@);
    while i < n
        invariant
            n == loads@.len(),
            i <= n,
            segments_fit(loads@, image_len as nat, u64::MAX as nat),
            file_position(loads@.skip(i as int), vaddr as int) == file_position(loads@, vaddr as int),
        decreases n - i,
    {
        let s = loads[i];
        assert(loads@.skip(i as int)[0] == s);
        assert(segment_fits(loads@[i as int], image_len as nat, u64::MAX as nat));
        if vaddr >= s.vaddr && vaddr - s.vaddr <= s.filesz && s.filesz - (vaddr - s.vaddr) >= 24 {
            return Some(s.offset + (vaddr - s.vaddr));
        }
        assert(loads@.skip(i as int).drop_first() =~= loads@.skip(i + 1));
        i = i + 1;
    }
    assert(loads@.skip(n as int) =~= Seq::<ProgramHeader>::empty());
    None
}

/// Whether the 8 bytes at `target` meet a non-empty protected range.
pub fn hits_protected_range(prot: &Vec<(u64, u64)>, target: u64) -> (r: bool)
    ensures
        r == hits_protected(prot@, target as int),
{
    let n = prot.len();
    let mut i: usize = 0;
    while i < n
        invariant
            n == prot@.len(),
            i <= n,
            forall|k: int|
                0 <= k < i ==> !(#[trigger] prot@[k].1 != 0 && target < prot@[k].0 + prot@[k].1
                    && prot@[k].0 < target + 8),
        decreases n - i,
    {
        let (pv, plen) = prot[i];
        if plen != 0 && (target < pv || target - pv < plen) && (pv <= target || pv - target < 8) {
            return true;
        }
        i = i + 1;
    }
    false
}

/// A file position found for a RELA entry leaves room for the whole entry
/// in the image.
proof fn lemma_file_position_in_image(loads: Seq<ProgramHeader>, vaddr: int, image_len: nat)
    requires
        segments_fit(loads, image_len, u64::MAX as nat),
    ensures
        file_position(loads, vaddr) matches Some(p) ==> 0 <= p && p + RELA_SIZE <= image_len,
    decreases loads.len(),
{
    if loads.len() > 0 {
        assert(segment_fits(loads[0], image_len, u64::MAX as nat));
        let rest = loads.drop_first();
        assert forall|k: int| 0 <= k < rest.len() implies segment_fits(
            #[trigger] rest[k],
            image_len,
            u64::MAX as nat,
        ) by {
            assert(rest[k] == loads[k + 1]);
        }
        lemma_file_position_in_image(rest, vaddr, image_len);
    }
}

/// The fixup the RELA entry at virtual address `eoff` asks for, or why it is
/// refused.
pub fn relocation_at(
    image: &[u8],
    loads: &Vec<ProgramHeader>,
    base: u64,
    prot: &Vec<(u64, u64)>,
    eoff: u64,
    dest_len: usize,
) -> (r: Result<(u64, u64), ElfError>)
    requires
        segments_fit(loads@, image@.len(), dest_len as nat),
    ensures
        r == relocation_fixup(image@, loads@, base, prot@, eoff as int),
        r matches Ok((target, _)) ==> target + 8 <= dest_len,
{
    proof {
        assert forall|k: int| 0 <= k < loads@.len() implies segment_fits(
            #[trigger] loads@[k],
            image@.len(),
            u64::MAX as nat,
        ) by {
            assert(segment_fits(loads@[k], image@.len(), dest_len as nat));
        }
    }
    let fp = match find_file_position(loads, eoff, image.len()) {
        Some(fp) => fp,
        None => return Err(ElfError::InvalidRelocation),
    };
    proof {
        lemma_file_position_in_image(loads@, eoff as int, image@.len());
    }
    let fp = fp as usize;
    let r_offset = u64_at(image, fp)?;
    let r_info = u64_at(image, fp + 8)?;
    let addend = i64_at(image, fp + 16)?;
    if r_info != R_AARCH64_RELATIVE_INFO {
        return Err(ElfError::InvalidRelocation);
    }
    if r_offset % 8 != 0 || !within_load_with(loads, r_offset, 8, PF_W) {
        return Err(ElfError::InvalidRelocation);
    }
    proof {
        let k = choose|k: int|
            0 <= k < loads@.len() && #[trigger] loads@[k].flags & PF_W != 0 && loads@[k].vaddr
                <= r_offset && r_offset + 8 <= loads@[k].vaddr + loads@[k].memsz;
        assert(segment_fits(loads@[k], image@.len(), dest_len as nat));
    }
    if hits_protected_range(prot, r_offset) {
        return Err(ElfError::InvalidRelocation);
    }
    if addend < 0 || !within_any_load(loads, addend as u64, 0) || base > u64::MAX - addend as u64 {
        return Err(ElfError::InvalidRelocation);
    }
    Ok((r_offset, base + addend as u64))
}

/// The fixups of the RELA table, validated entry by entry before anything
/// is written; or why the table was refused.
pub fn find_fixups(
    image: &[u8],
    loads: &Vec<ProgramHeader>,
    dynamic: Option<ProgramHeader>,
    base: u64,
    rela: Option<(u64, u64)>,
    dest_len: usize,
) -> (r: Result<Vec<(u64, u64)>, ElfError>)
    requires
        segments_fit(loads@, image@.len(), dest_len as nat),
    ensures
        match relocation_fixups(image@, loads@, dynamic, base, rela) {
            Ok(f) => r matches Ok(v) && v@ == f,
            Err(e) => r == Err::<Vec<(u64, u64)>, ElfError>(e),
        },
        r matches Ok(v) ==> forall|k: int| 0 <= k < v@.len() ==> #[trigger] v@[k].0 + 8 <= dest_len,
{
    let (table, size) = match rela {
        None => return Ok(Vec::new()),
        Some(t) => t,
    };
    if !within_any_load(loads, table, size) {
        return Err(ElfError::InvalidRelocation);
    }
    let mut prot: Vec<(u64, u64)> = Vec::new();
    if let Some(d) = dynamic {
        prot.push((d.vaddr, d.memsz));
    }
    prot.push((table, size));
    assert(prot@ == protected_ranges(dynamic, table, size));
    let count = size / RELA_SIZE;
    let mut fixups: Vec<(u64, u64)> = Vec::new();
    let mut k: u64 = 0;
    while k < count
        invariant
            segments_fit(loads@, image@.len(), dest_len as nat),
            forall|j: int| 0 <= j < fixups@.len() ==> #[trigger] fixups@[j].0 + 8 <= dest_len,
            count == size / RELA_SIZE,
            table + size <= u64::MAX,
            k <= count,
            prot@ == protected_ranges(dynamic, table, size),
            fixups_from(image@, loads@, base, prot@, table, k as nat, count as nat, fixups@)
                == relocation_fixups(image@, loads@, dynamic, base, rela),
            rela == Some((table, size)),
        decreases count - k,
    {
        let eoff = table + k * RELA_SIZE;
        let f = relocation_at(image, loads, base, &prot, eoff, dest_len)?;
        fixups.push(f);
        k = k + 1;
    }
    Ok(fixups)
}

/// Copies the file bytes of segment `s` into place and zeroes the rest of its
/// memory range.
fn copy_segment(dest: &mut [u8], image: &[u8], s: ProgramHeader)
    requires
        segment_fits(s, image@.len(), old(dest)@.len()),
    ensures
        final(dest)@ == place_segment(old(dest)@, image@, s),
{
    let ghost d0 = dest@;
    let image_len = image.len();
    let dest_len = dest.len();
    assert(segment_fits(s, image_len as nat, dest_len as nat));
    let v = s.vaddr as usize;
    let f = s.filesz as usize;
    let m = s.memsz as usize;
    let o = s.offset as usize;
    let mut j: usize = 0;
    while j < f
        invariant
            segment_fits(s, image@.len(), d0.len()),
            d0.len() <= usize::MAX,
            image@.len() <= usize::MAX,
            v == s.vaddr,
            f == s.filesz,
            m == s.memsz,
            o == s.offset,
            j <= f,
            dest@.len() == d0.len(),
            forall|i: int|
                0 <= i < d0.len() ==> #[trigger] dest@[i] == if v <= i < v + j {
                    image@[o + (i - v)]
                } else {
                    d0[i]
                },
        decreases f - j,
    {
        dest[v + j] = image[o + j];
        j = j + 1;
    }
    while j < m
        invariant
            segment_fits(s, image@.len(), d0.len()),
            d0.len() <= usize::MAX,
            image@.len() <= usize::MAX,
            v == s.vaddr,
            f == s.filesz,
            m == s.memsz,
            o == s.offset,
            f <= j <= m,
            dest@.len() == d0.len(),
            forall|i: int|
                0 <= i < d0.len() ==> #[trigger] dest@[i] == if v <= i < v + f {
                    image@[o + (i - v)]
                } else if v + f <= i < v + j {
                    0u8
                } else {
                    d0[i]
                },
        decreases m - j,
    {
        dest[v + j] = 0;
        j = j + 1;
    }
    assert(dest@ =~= place_segment(d0, image@, s));
}

/// Writes the little-endian encoding of `value` at `off`.
fn write_u64(dest: &mut [u8], off: usize, value: u64)
    requires
        off + 8 <= old(dest)@.len(),
    ensures
        final(dest)@ == write_u64_le(old(dest)@, off as int, value),
{
    let ghost d0 = dest@;
    let dest_len = dest.len();
    assert(off + 8 <= dest_len);
    let mut j: u64 = 0;
    while j < 8
        invariant
            off + 8 <= d0.len(),
            d0.len() <= usize::MAX,
            j <= 8,
            dest@.len() == d0.len(),
            forall|i: int|
                0 <= i < d0.len() ==> #[trigger] dest@[i] == if off <= i < off + j {
                    le_byte(value, (i - off) as u64)
                } else {
                    d0[i]
                },
        decreases 8 - j,
    {
        dest[off + j as usize] = ((value >> (8 * j)) & 0xff) as u8;
        j = j + 1;
    }
    assert(dest@ =~= write_u64_le(d0, off as int, value));
}

/// Places every load segment, in order.
fn copy_segments(dest: &mut [u8], image: &[u8], loads: &Vec<ProgramHeader>)
    requires
        segments_fit(loads@, image@.len(), old(dest)@.len()),
    ensures
        final(dest)@ == place_segments(old(dest)@, image@, loads@),
        final(dest)@.len() == old(dest)@.len(),
{
    let ghost d0 = dest@;
    let n = loads.len();
    let mut i: usize = 0;
    assert(loads@.take(0) =~= Seq::<ProgramHeader>::empty());
    while i < n
        invariant
            n == loads@.len(),
            i <= n,
            segments_fit(loads@, image@.len(), d0.len()),
            dest@.len() == d0.len(),
            dest@ == place_segments(d0, image@, loads@.take(i as int)),
        decreases n - i,
    {
        assert(segment_fits(loads@[i as int], image@.len(), d0.len()));
        copy_segment(dest, image, loads[i]);
        assert(loads@.take(i + 1).drop_last() =~= loads@.take(i as int));
        i = i + 1;
    }
    assert(loads@.take(n as int) =~= loads@);
}

/// Writes every fixup, in order.
fn write_fixups(dest: &mut [u8], fixups: &Vec<(u64, u64)>)
    requires
        forall|k: int| 0 <= k < fixups@.len() ==> #[trigger] fixups@[k].0 + 8 <= old(dest)@.len(),
    ensures
        final(dest)@ == apply_fixups(old(dest)@, fixups@),
{
    let ghost d0 = dest@;
    let dest_len = dest.len();
    assert(d0.len() == dest_len);
    let n = fixups.len();
    let mut i: usize = 0;
    assert(fixups@.take(0) =~= Seq::<(u64, u64)>::empty());
    while i < n
        invariant
            d0.len() <= usize::MAX,
            n == fixups@.len(),
            i <= n,
            forall|k: int| 0 <= k < fixups@.len() ==> #[trigger] fixups@[k].0 + 8 <= d0.len(),
            dest@.len() == d0.len(),
            dest@ == apply_fixups(d0, fixups@.take(i as int)),
        decreases n - i,
    {
        let (target, value) = fixups[i];
        assert(fixups@[i as int].0 + 8 <= d0.len());
        write_u64(dest, target as usize, value);
        assert(fixups@.take(i + 1).drop_last() =~= fixups@.take(i as int));
        i = i + 1;
    }
    assert(fixups@.take(n as int) =~= fixups@);
}

/// Loads `image` into `dest`, whose first byte is at address `base`: checks
/// the whole image first and, only if every check passes, copies each
/// `PT_LOAD` segment to `dest[p_vaddr..]`, zero-fills its `bss` tail, writes
/// `base + addend` at every `R_AARCH64_RELATIVE` target, and returns the
/// relocated entry point `base + e_entry`. A refused image leaves `dest`
/// untouched.
pub fn load_elf_at(image: &[u8], dest: &mut [u8], base: u64) -> (r: Result<u64, ElfError>)
    ensures
        load_outcome(image@, old(dest)@, base, r, final(dest)@),
{
    let dest_len = dest.len();
    let h = parse_header(image)?;
    proof {
        lemma_header_fields(image@);
    }
    let (loads, dynamic) = scan_program_headers(image, dest_len, base, h)?;
    if loads.len() == 0 {
        return Err(ElfError::MissingLoadSegment);
    }
    if any_segments_overlap(&loads) {
        return Err(ElfError::InvalidSegment);
    }
    if let Some(d) = dynamic {
        if !dynamic_is_mapped(&loads, d, dest_len) {
            return Err(ElfError::InvalidSegment);
        }
    }
    if !entry_is_valid(&loads, h.entry, base) {
        return Err(ElfError::InvalidEntry);
    }
    let tags = match dynamic {
        Some(d) => scan_dynamic(image, d)?,
        None => RelaTags { table: None, size: None, entry_size: None },
    };
    let rela = check_rela_tags(tags)?;
    let fixups = find_fixups(image, &loads, dynamic, base, rela, dest_len)?;
    copy_segments(dest, image, &loads);
    write_fixups(dest, &fixups);
    Ok(base + h.entry)
}

/// The address of the first byte of `s`, as the machine numbers it.
/// Calls `<[u8]>::as_ptr`; nothing is stated of the address, which depends
/// on where the slice lives.
#[verifier::external_body]
fn slice_address(s: &[u8]) -> (addr: u64) {
    s.as_ptr() as usize as u64
}

/// Loads `image` into `dest` at the address where `dest` lies in memory (see
/// `load_elf_at`); returns the address of the loaded entry point.
pub fn load_elf(image: &[u8], dest: &mut [u8]) -> (r: Result<u64, ElfError>)
    ensures
        exists|base: u64| load_outcome(image@, old(dest)@, base, r, final(dest)@),
{
    let base = slice_address(dest);
    load_elf_at(image, dest, base)
}

} // verus!
