//! Properties of every load that `load_elf_at` accepts.
use vstd::prelude::*;

use crate::elf_spec::{
    apply_fixups, dynamic_tags, entry_valid, fixups_from, header_check, holds_entry, in_load_with,
    is_power_of_two,
    le_byte, le_u64, load_plan, loaded_image, ph_at, place_segments, rela_table, relocation_fixup,
    scan_from, scan_headers, scan_step, segment_fits, segment_layout_error, segments_fit,
    segments_overlap, starts_within, ProgramHeader, PF_W, PHDR_SIZE, PT_DYNAMIC, PT_INTERP, PT_LOAD,
    PT_TLS, MAX_LOADS, DT_NULL, DT_RELA, DT_RELASZ, DT_RELAENT, DYN_SIZE, RELA_SIZE,
    R_AARCH64_RELATIVE_INFO, RelaTags, dynamic_tags_from, unsupported_tag, le_i64, file_position,
    hits_protected, in_any_load, dynamic_mapped, no_rela_tags, protected_ranges, relocation_fixups,
    maps_dynamic, ElfError, LoadPlan,
};

verus! {

/// The byte a placed segment `s` holds at destination index `i` (inside its
/// memory range): the file byte for the file part, zero for the `bss` tail.
pub open spec fn segment_byte(b: Seq<u8>, s: ProgramHeader, i: int) -> u8 {
    if i < s.vaddr + s.filesz {
        b[s.offset + (i - s.vaddr)]
    } else {
        0u8
    }
}

/// `i` lies in the memory range of `s`.
pub open spec fn in_segment(s: ProgramHeader, i: int) -> bool {
    s.vaddr <= i < s.vaddr + s.memsz
}

/// `i` lies in the 8 bytes a fixup writes.
pub open spec fn in_fixup(f: (u64, u64), i: int) -> bool {
    f.0 <= i < f.0 + 8
}

/// A fixup target is 8-aligned and lies in a writable load segment.
pub open spec fn fixup_well_placed(loads: Seq<ProgramHeader>, f: (u64, u64)) -> bool {
    f.0 % 8 == 0 && in_load_with(loads, f.0 as int, 8, PF_W)
}

/// A segment with an alignment above 1 has a power-of-two alignment, file
/// offset and address congruent under it, and a load base that meets it.
pub open spec fn base_aligned(s: ProgramHeader, base: u64) -> bool {
    s.align > 1 ==> {
        &&& is_power_of_two(s.align as nat)
        &&& s.vaddr % s.align == s.offset % s.align
        &&& base % s.align == 0
    }
}

// ---- The program-header scan ------------------------------------------------------
proof fn lemma_scan_from_facts(
    b: Seq<u8>,
    dest_len: nat,
    base: u64,
    phoff: int,
    i: nat,
    n: nat,
    loads: Seq<ProgramHeader>,
    dynamic: Option<ProgramHeader>,
)
    requires
        segments_fit(loads, b.len(), dest_len),
        forall|k: int| 0 <= k < loads.len() ==> (#[trigger] loads[k]).p_type == PT_LOAD,
        forall|k: int| 0 <= k < loads.len() ==> base_aligned(#[trigger] loads[k], base),
        dynamic matches Some(d) ==> segment_fits(d, b.len(), dest_len) && d.p_type == PT_DYNAMIC,
    ensures
        scan_from(b, dest_len, base, phoff, i, n, loads, dynamic) matches Ok((l, d)) ==> {
            &&& segments_fit(l, b.len(), dest_len)
            &&& forall|k: int| 0 <= k < l.len() ==> (#[trigger] l[k]).p_type == PT_LOAD
            &&& forall|k: int| 0 <= k < l.len() ==> base_aligned(#[trigger] l[k], base)
            &&& d matches Some(dd) ==> segment_fits(dd, b.len(), dest_len) && dd.p_type
                == PT_DYNAMIC
            &&& forall|j: int|
                i <= j < n ==> (#[trigger] ph_at(b, phoff + j * PHDR_SIZE)).p_type != PT_INTERP
                    && ph_at(b, phoff + j * PHDR_SIZE).p_type != PT_TLS
        },
    decreases n - i,
{
    if i < n {
        let ph = ph_at(b, phoff + i * PHDR_SIZE);
        match scan_step(loads, dynamic, ph, b.len(), dest_len, base) {
            Err(_) => {},
            Ok((l, d)) => {
                if ph.p_type == PT_LOAD {
                    assert forall|k: int| 0 <= k < l.len() implies segment_fits(
                        #[trigger] l[k],
                        b.len(),
                        dest_len,
                    ) && l[k].p_type == PT_LOAD && base_aligned(l[k], base) by {
                        if k < loads.len() {
                            assert(l[k] == loads[k]);
                        }
                    }
                }
                lemma_scan_from_facts(b, dest_len, base, phoff, i + 1, n, l, d);
            },
        }
    }
}

/// The number of program headers of type `t` among headers `i..n` of the
/// table at `phoff`.
pub open spec fn headers_of_type(b: Seq<u8>, phoff: int, i: nat, n: nat, t: u32) -> nat
    decreases n - i,
{
    if i >= n {
        0
    } else {
        (if ph_at(b, phoff + i * PHDR_SIZE).p_type == t {
            1nat
        } else {
            0nat
        }) + headers_of_type(b, phoff, i + 1, n, t)
    }
}

proof fn lemma_scan_from_counts(
    b: Seq<u8>,
    dest_len: nat,
    base: u64,
    phoff: int,
    i: nat,
    n: nat,
    loads: Seq<ProgramHeader>,
    dynamic: Option<ProgramHeader>,
)
    requires
        loads.len() <= MAX_LOADS,
    ensures
        scan_from(b, dest_len, base, phoff, i, n, loads, dynamic) matches Ok((l, d)) ==> {
            &&& l.len() == loads.len() + headers_of_type(b, phoff, i, n, PT_LOAD)
            &&& l.len() <= MAX_LOADS
            &&& headers_of_type(b, phoff, i, n, PT_DYNAMIC) + (if dynamic is Some {
                1nat
            } else {
                0nat
            }) <= 1
            &&& (d is Some <==> (dynamic is Some || headers_of_type(b, phoff, i, n, PT_DYNAMIC)
                == 1))
        },
    decreases n - i,
{
    if i < n {
        let ph = ph_at(b, phoff + i * PHDR_SIZE);
        match scan_step(loads, dynamic, ph, b.len(), dest_len, base) {
            Err(_) => {},
            Ok((l, d)) => {
                lemma_scan_from_counts(b, dest_len, base, phoff, i + 1, n, l, d);
            },
        }
    }
}

/// An accepted image has a valid ELF64 header (checked by
/// `lemma_header_fields`), between 1 and 32 `PT_LOAD` headers, which are
/// exactly the segments the load places, and at most one `PT_DYNAMIC`
/// header, which is the dynamic segment the load reads when present.
pub proof fn lemma_accepted_header_counts(b: Seq<u8>, dest_len: nat, base: u64)
    requires
        load_plan(b, dest_len, base) is Ok,
    ensures
        ({
            let plan = load_plan(b, dest_len, base)->Ok_0;
            let h = header_check(b)->Ok_0;
            let dynamic = scan_headers(b, dest_len, base, h)->Ok_0.1;
            let nload = headers_of_type(b, h.phoff as int, 0, h.phnum as nat, PT_LOAD);
            let ndyn = headers_of_type(b, h.phoff as int, 0, h.phnum as nat, PT_DYNAMIC);
            &&& plan.loads.len() == nload
            &&& 1 <= nload <= MAX_LOADS
            &&& ndyn <= 1
            &&& (dynamic is Some <==> ndyn == 1)
        }),
{
    let h = header_check(b)->Ok_0;
    lemma_scan_from_counts(b, dest_len, base, h.phoff as int, 0, h.phnum as nat, Seq::empty(), None);
}

/// Every accepted image has at least one `PT_LOAD` segment; each segment the
/// load places is a `PT_LOAD` whose file bytes lie in the image, whose file
/// part is no larger than its memory part, whose memory range lies in the
/// destination, and whose alignment (when above 1) is a power of two that
/// the load base meets; and no program header of the image asks for an interpreter
/// (`PT_INTERP`) or thread-local storage (`PT_TLS`).
pub proof fn lemma_accepted_segments_fit(b: Seq<u8>, dest_len: nat, base: u64)
    requires
        load_plan(b, dest_len, base) is Ok,
    ensures
        ({
            let plan = load_plan(b, dest_len, base)->Ok_0;
            let h = header_check(b)->Ok_0;
            &&& plan.loads.len() >= 1
            &&& segments_fit(plan.loads, b.len(), dest_len)
            &&& forall|k: int| 0 <= k < plan.loads.len() ==> (#[trigger] plan.loads[k]).p_type == PT_LOAD
            &&& forall|k: int| 0 <= k < plan.loads.len() ==> base_aligned(#[trigger] plan.loads[k], base)
            &&& forall|j: int|
                0 <= j < h.phnum ==> (#[trigger] ph_at(b, h.phoff + j * PHDR_SIZE)).p_type
                    != PT_INTERP && ph_at(b, h.phoff + j * PHDR_SIZE).p_type != PT_TLS
        }),
{
    let h = header_check(b)->Ok_0;
    lemma_scan_from_facts(b, dest_len, base, h.phoff as int, 0, h.phnum as nat, Seq::empty(), None);
}

/// An accepted image's entry point is returned relocated to `base`
/// (`base + e_entry`); it is 4-byte aligned, and its first instruction lies
/// in the file-backed bytes of an executable load segment.
pub proof fn lemma_accepted_entry(b: Seq<u8>, dest_len: nat, base: u64)
    requires
        load_plan(b, dest_len, base) is Ok,
    ensures
        ({
            let plan = load_plan(b, dest_len, base)->Ok_0;
            let e_entry = header_check(b)->Ok_0.entry;
            &&& e_entry == le_u64(b, 24)
            &&& plan.entry == base + e_entry
            &&& plan.entry % 4 == 0
            &&& exists|k: int|
                0 <= k < plan.loads.len() && #[trigger] holds_entry(plan.loads[k], e_entry)
        }),
{
    let h = header_check(b)->Ok_0;
    let (loads, dynamic) = scan_headers(b, dest_len, base, h)->Ok_0;
    assert(segment_layout_error(loads, dynamic, h.entry, base) is None);
    assert(entry_valid(loads, h.entry, base));
    let plan = load_plan(b, dest_len, base)->Ok_0;
    assert(plan.loads == loads);
    assert(plan.entry == base + h.entry);
    let k = choose|k: int| 0 <= k < loads.len() && #[trigger] holds_entry(loads[k], h.entry);
    assert(holds_entry(plan.loads[k], h.entry));
    crate::elf_spec::lemma_header_fields(b);
}

/// An accepted image's load segments never claim the same memory: no
/// segment starts inside another.
pub proof fn lemma_accepted_segments_disjoint(b: Seq<u8>, dest_len: nat, base: u64)
    requires
        load_plan(b, dest_len, base) is Ok,
    ensures
        !segments_overlap(load_plan(b, dest_len, base)->Ok_0.loads),
{
}

// ---- Relocations ---------------------------------------------------------------------
proof fn lemma_fixups_from_placed(
    b: Seq<u8>,
    loads: Seq<ProgramHeader>,
    base: u64,
    prot: Seq<(u64, u64)>,
    table: u64,
    k: nat,
    count: nat,
    acc: Seq<(u64, u64)>,
)
    requires
        forall|j: int| 0 <= j < acc.len() ==> fixup_well_placed(loads, #[trigger] acc[j]),
    ensures
        fixups_from(b, loads, base, prot, table, k, count, acc) matches Ok(f) ==> forall|j: int|
            0 <= j < f.len() ==> fixup_well_placed(loads, #[trigger] f[j]),
    decreases count - k,
{
    if k < count {
        match relocation_fixup(b, loads, base, prot, table + k * 24) {
            Err(_) => {},
            Ok(x) => {
                let acc2 = acc.push(x);
                assert forall|j: int| 0 <= j < acc2.len() implies fixup_well_placed(
                    loads,
                    #[trigger] acc2[j],
                ) by {
                    if j < acc.len() {
                        assert(acc2[j] == acc[j]);
                    }
                }
                lemma_fixups_from_placed(b, loads, base, prot, table, k + 1, count, acc2);
            },
        }
    }
}

/// Every fixup of an accepted load writes 8 aligned bytes that lie in a
/// writable load segment.
pub proof fn lemma_accepted_fixups_placed(b: Seq<u8>, dest_len: nat, base: u64)
    requires
        load_plan(b, dest_len, base) is Ok,
    ensures
        ({
            let plan = load_plan(b, dest_len, base)->Ok_0;
            forall|j: int|
                0 <= j < plan.fixups.len() ==> fixup_well_placed(plan.loads, #[trigger] plan.fixups[j])
        }),
{
    let h = header_check(b)->Ok_0;
    let (loads, dynamic) = scan_headers(b, dest_len, base, h)->Ok_0;
    let t = dynamic_tags(b, dynamic)->Ok_0;
    let rela = rela_table(t)->Ok_0;
    match rela {
        None => {},
        Some((table, size)) => {
            let prot = crate::elf_spec::protected_ranges(dynamic, table, size);
            lemma_fixups_from_placed(
                b,
                loads,
                base,
                prot,
                table,
                0,
                (size / 24) as nat,
                Seq::empty(),
            );
        },
    }
}

// ---- The destination after a load ------------------------------------------------------
proof fn lemma_place_segments_len(d: Seq<u8>, b: Seq<u8>, loads: Seq<ProgramHeader>)
    ensures
        place_segments(d, b, loads).len() == d.len(),
    decreases loads.len(),
{
    if loads.len() > 0 {
        lemma_place_segments_len(d, b, loads.drop_last());
    }
}

proof fn lemma_apply_fixups_len(d: Seq<u8>, fixups: Seq<(u64, u64)>)
    ensures
        apply_fixups(d, fixups).len() == d.len(),
    decreases fixups.len(),
{
    if fixups.len() > 0 {
        lemma_apply_fixups_len(d, fixups.drop_last());
    }
}

proof fn lemma_place_segments_outside(d: Seq<u8>, b: Seq<u8>, loads: Seq<ProgramHeader>, i: int)
    requires
        0 <= i < d.len(),
        forall|k: int| 0 <= k < loads.len() ==> (#[trigger] loads[k]).filesz <= loads[k].memsz,
        forall|k: int| 0 <= k < loads.len() ==> !in_segment(#[trigger] loads[k], i),
    ensures
        place_segments(d, b, loads)[i] == d[i],
    decreases loads.len(),
{
    if loads.len() > 0 {
        let rest = loads.drop_last();
        assert forall|k: int| 0 <= k < rest.len() implies !in_segment(#[trigger] rest[k], i)
            && rest[k].filesz <= rest[k].memsz by {
            assert(rest[k] == loads[k]);
        }
        assert(!in_segment(loads[loads.len() - 1], i));
        lemma_place_segments_outside(d, b, rest, i);
        lemma_place_segments_len(d, b, rest);
    }
}

proof fn lemma_apply_fixups_outside(d: Seq<u8>, fixups: Seq<(u64, u64)>, i: int)
    requires
        0 <= i < d.len(),
        forall|j: int| 0 <= j < fixups.len() ==> !in_fixup(#[trigger] fixups[j], i),
    ensures
        apply_fixups(d, fixups)[i] == d[i],
    decreases fixups.len(),
{
    if fixups.len() > 0 {
        let rest = fixups.drop_last();
        assert forall|j: int| 0 <= j < rest.len() implies !in_fixup(#[trigger] rest[j], i) by {
            assert(rest[j] == fixups[j]);
        }
        assert(!in_fixup(fixups[fixups.len() - 1], i));
        lemma_apply_fixups_outside(d, rest, i);
        lemma_apply_fixups_len(d, rest);
    }
}

/// A load leaves the destination's length as it was, and every destination
/// byte outside the memory ranges of the load segments keeps its old value.
pub proof fn lemma_load_keeps_gaps(b: Seq<u8>, d: Seq<u8>, base: u64, i: int)
    requires
        load_plan(b, d.len(), base) is Ok,
        0 <= i < d.len(),
        forall|k: int|
            0 <= k < load_plan(b, d.len(), base)->Ok_0.loads.len() ==> !in_segment(
                #[trigger] load_plan(b, d.len(), base)->Ok_0.loads[k],
                i,
            ),
    ensures
        loaded_image(d, b, load_plan(b, d.len(), base)->Ok_0).len() == d.len(),
        loaded_image(d, b, load_plan(b, d.len(), base)->Ok_0)[i] == d[i],
{
    let plan = load_plan(b, d.len(), base)->Ok_0;
    lemma_accepted_fixups_placed(b, d.len(), base);
    lemma_accepted_segments_fit(b, d.len(), base);
    assert forall|k: int| 0 <= k < plan.loads.len() implies (#[trigger] plan.loads[k]).filesz
        <= plan.loads[k].memsz by {
        assert(segment_fits(plan.loads[k], b.len(), d.len()));
    }
    let placed = place_segments(d, b, plan.loads);
    lemma_place_segments_len(d, b, plan.loads);
    lemma_apply_fixups_len(placed, plan.fixups);
    lemma_place_segments_outside(d, b, plan.loads, i);
    assert forall|j: int| 0 <= j < plan.fixups.len() implies !in_fixup(
        #[trigger] plan.fixups[j],
        i,
    ) by {
        assert(fixup_well_placed(plan.loads, plan.fixups[j]));
        let f = plan.fixups[j];
        let k = choose|k: int|
            0 <= k < plan.loads.len() && #[trigger] plan.loads[k].flags & PF_W != 0
                && plan.loads[k].vaddr <= f.0 && f.0 + 8 <= plan.loads[k].vaddr
                + plan.loads[k].memsz;
        assert(!in_segment(plan.loads[k], i));
    }
    lemma_apply_fixups_outside(placed, plan.fixups, i);
}

proof fn lemma_place_segments_inside(
    d: Seq<u8>,
    b: Seq<u8>,
    loads: Seq<ProgramHeader>,
    k: int,
    i: int,
)
    requires
        0 <= k < loads.len(),
        0 <= i < d.len(),
        in_segment(loads[k], i),
        !segments_overlap(loads),
        forall|x: int| 0 <= x < loads.len() ==> (#[trigger] loads[x]).filesz <= loads[x].memsz,
    ensures
        place_segments(d, b, loads)[i] == segment_byte(b, loads[k], i),
    decreases loads.len(),
{
    let n = loads.len();
    let rest = loads.drop_last();
    lemma_place_segments_len(d, b, rest);
    if k < n - 1 {
        let t = loads[n - 1];
        if in_segment(t, i) {
            let s = loads[k];
            if s.vaddr <= t.vaddr {
                assert(starts_within(loads[n - 1], loads[k]));
            } else {
                assert(starts_within(loads[k], loads[n - 1]));
            }
        }
        assert(!segments_overlap(rest)) by {
            if segments_overlap(rest) {
                let (x, y) = choose|x: int, y: int|
                    0 <= x < rest.len() && 0 <= y < rest.len() && x != y
                        && #[trigger] starts_within(rest[x], rest[y]);
                assert(starts_within(loads[x], loads[y]));
            }
        }
        assert(rest[k] == loads[k]);
        assert forall|x: int| 0 <= x < rest.len() implies (#[trigger] rest[x]).filesz
            <= rest[x].memsz by {
            assert(rest[x] == loads[x]);
        }
        lemma_place_segments_inside(d, b, rest, k, i);
    }
}

/// After an accepted load, a destination byte in the memory range of a load
/// segment that no fixup writes holds that segment's byte: the image byte
/// for its file part, zero for its `bss` tail.
pub proof fn lemma_load_places_segment(b: Seq<u8>, d: Seq<u8>, base: u64, k: int, i: int)
    requires
        load_plan(b, d.len(), base) is Ok,
        0 <= k < load_plan(b, d.len(), base)->Ok_0.loads.len(),
        in_segment(load_plan(b, d.len(), base)->Ok_0.loads[k], i),
        forall|j: int|
            0 <= j < load_plan(b, d.len(), base)->Ok_0.fixups.len() ==> !in_fixup(
                #[trigger] load_plan(b, d.len(), base)->Ok_0.fixups[j],
                i,
            ),
    ensures
        loaded_image(d, b, load_plan(b, d.len(), base)->Ok_0)[i] == segment_byte(
            b,
            load_plan(b, d.len(), base)->Ok_0.loads[k],
            i,
        ),
{
    let plan = load_plan(b, d.len(), base)->Ok_0;
    lemma_accepted_segments_fit(b, d.len(), base);
    assert(segment_fits(plan.loads[k], b.len(), d.len()));
    assert forall|x: int| 0 <= x < plan.loads.len() implies (#[trigger] plan.loads[x]).filesz
        <= plan.loads[x].memsz by {
        assert(segment_fits(plan.loads[x], b.len(), d.len()));
    }
    lemma_place_segments_inside(d, b, plan.loads, k, i);
    lemma_place_segments_len(d, b, plan.loads);
    lemma_apply_fixups_outside(place_segments(d, b, plan.loads), plan.fixups, i);
}

proof fn lemma_apply_fixups_readback(d: Seq<u8>, fixups: Seq<(u64, u64)>, j: int, t: int)
    requires
        0 <= j < fixups.len(),
        0 <= t < 8,
        fixups[j].0 + 8 <= d.len(),
        forall|x: int| 0 <= x < fixups.len() ==> (#[trigger] fixups[x]).0 % 8 == 0,
        forall|x: int| j < x < fixups.len() ==> (#[trigger] fixups[x]).0 != fixups[j].0,
    ensures
        apply_fixups(d, fixups)[fixups[j].0 + t] == le_byte(fixups[j].1, t as u64),
    decreases fixups.len(),
{
    let n = fixups.len();
    let rest = fixups.drop_last();
    lemma_apply_fixups_len(d, rest);
    if j < n - 1 {
        let last = fixups[n - 1];
        let f = fixups[j];
        assert(!in_fixup(last, f.0 + t)) by {
            assert(last.0 % 8 == 0 && f.0 % 8 == 0 && last.0 != f.0);
            if last.0 < f.0 {
                assert(last.0 + 8 <= f.0);
            } else {
                assert(f.0 + 8 <= last.0);
            }
        }
        assert forall|x: int| 0 <= x < rest.len() implies (#[trigger] rest[x]).0 % 8 == 0 by {
            assert(rest[x] == fixups[x]);
        }
        assert forall|x: int| j < x < rest.len() implies (#[trigger] rest[x]).0 != rest[j].0 by {
            assert(rest[x] == fixups[x]);
        }
        assert(rest[j] == fixups[j]);
        lemma_apply_fixups_readback(d, rest, j, t);
    }
}

/// After an accepted load, the 8 bytes at the target of a fixup that no
/// later fixup overwrites hold its value `base + addend`, little-endian.
pub proof fn lemma_load_applies_fixup(b: Seq<u8>, d: Seq<u8>, base: u64, j: int, t: int)
    requires
        load_plan(b, d.len(), base) is Ok,
        0 <= j < load_plan(b, d.len(), base)->Ok_0.fixups.len(),
        0 <= t < 8,
        forall|x: int|
            j < x < load_plan(b, d.len(), base)->Ok_0.fixups.len() ==> (#[trigger] load_plan(
                b,
                d.len(),
                base,
            )->Ok_0.fixups[x]).0 != load_plan(b, d.len(), base)->Ok_0.fixups[j].0,
    ensures
        ({
            let f = load_plan(b, d.len(), base)->Ok_0.fixups[j];
            loaded_image(d, b, load_plan(b, d.len(), base)->Ok_0)[f.0 + t] == le_byte(f.1, t as u64)
        }),
{
    let plan = load_plan(b, d.len(), base)->Ok_0;
    lemma_accepted_fixups_placed(b, d.len(), base);
    lemma_accepted_segments_fit(b, d.len(), base);
    let f = plan.fixups[j];
    assert(fixup_well_placed(plan.loads, f));
    let k = choose|k: int|
        0 <= k < plan.loads.len() && #[trigger] plan.loads[k].flags & PF_W != 0
            && plan.loads[k].vaddr <= f.0 && f.0 + 8 <= plan.loads[k].vaddr + plan.loads[k].memsz;
    assert(segment_fits(plan.loads[k], b.len(), d.len()));
    assert forall|x: int| 0 <= x < plan.fixups.len() implies (#[trigger] plan.fixups[x]).0 % 8
        == 0 by {
        assert(fixup_well_placed(plan.loads, plan.fixups[x]));
    }
    let placed = place_segments(d, b, plan.loads);
    lemma_place_segments_len(d, b, plan.loads);
    lemma_apply_fixups_readback(placed, plan.fixups, j, t);
}

// ---- The dynamic table and the relocation entries --------------------------------
/// The dynamic entries from image offset `off` up to `end` hold a `DT_NULL`
/// entry, and no entry before it is `DT_NULL` or carries an unsupported tag.
pub open spec fn dynamic_terminated(b: Seq<u8>, off: int, end: int) -> bool {
    exists|n: nat|
        {
            &&& off + DYN_SIZE * (n + 1) <= end
            &&& #[trigger] le_i64(b, off + DYN_SIZE * n) == DT_NULL
            &&& forall|j: nat|
                j < n ==> #[trigger] le_i64(b, off + DYN_SIZE * j) != DT_NULL && !unsupported_tag(
                    le_i64(b, off + DYN_SIZE * j),
                )
        }
}

proof fn lemma_dynamic_tags_terminated(b: Seq<u8>, off: int, end: int, t: RelaTags)
    requires
        dynamic_tags_from(b, off, end, t) is Ok,
    ensures
        dynamic_terminated(b, off, end),
    decreases end - off,
{
    let tag = le_i64(b, off);
    if tag == DT_NULL {
        assert(le_i64(b, off + DYN_SIZE * 0) == DT_NULL);
    } else {
        let val = le_u64(b, off + 8) as u64;
        let t2 = if tag == DT_RELA {
            RelaTags { table: Some(val), ..t }
        } else if tag == DT_RELASZ {
            RelaTags { size: Some(val), ..t }
        } else if tag == DT_RELAENT {
            RelaTags { entry_size: Some(val), ..t }
        } else {
            t
        };
        assert(dynamic_tags_from(b, off + DYN_SIZE, end, t2) is Ok);
        lemma_dynamic_tags_terminated(b, off + DYN_SIZE, end, t2);
        let n = choose|n: nat|
            {
                &&& off + DYN_SIZE + DYN_SIZE * (n + 1) <= end
                &&& #[trigger] le_i64(b, off + DYN_SIZE + DYN_SIZE * n) == DT_NULL
                &&& forall|j: nat|
                    j < n ==> #[trigger] le_i64(b, off + DYN_SIZE + DYN_SIZE * j) != DT_NULL
                        && !unsupported_tag(le_i64(b, off + DYN_SIZE + DYN_SIZE * j))
            };
        assert(off + DYN_SIZE + DYN_SIZE * n == off + DYN_SIZE * (n + 1));
        assert forall|j: nat| j < n + 1 implies #[trigger] le_i64(b, off + DYN_SIZE * j) != DT_NULL
            && !unsupported_tag(le_i64(b, off + DYN_SIZE * j)) by {
            if j > 0 {
                let j1 = (j - 1) as nat;
                assert(off + DYN_SIZE + DYN_SIZE * j1 == off + DYN_SIZE * j);
                assert(le_i64(b, off + DYN_SIZE + DYN_SIZE * j1) != DT_NULL);
            } else {
                assert(off + DYN_SIZE * j == off);
            }
        }
        assert(le_i64(b, off + DYN_SIZE * (n + 1)) == DT_NULL);
    }
}

/// The conditions a RELA entry at virtual address `eoff` met when it gave
/// the fixup `f`.
pub open spec fn rela_entry_ok(
    b: Seq<u8>,
    loads: Seq<ProgramHeader>,
    base: u64,
    prot: Seq<(u64, u64)>,
    eoff: int,
    f: (u64, u64),
) -> bool {
    file_position(loads, eoff) matches Some(fp) && {
        let addend = le_i64(b, fp + 16);
        &&& exists|k: int|
            0 <= k < loads.len() && #[trigger] loads[k].vaddr <= eoff && eoff + RELA_SIZE
                <= loads[k].vaddr + loads[k].filesz && fp == loads[k].offset + (eoff
                - loads[k].vaddr)
        &&& le_u64(b, fp + 8) == R_AARCH64_RELATIVE_INFO
        &&& f.0 == le_u64(b, fp)
        &&& f.0 % 8 == 0
        &&& in_load_with(loads, f.0 as int, 8, PF_W)
        &&& !hits_protected(prot, f.0 as int)
        &&& addend >= 0
        &&& in_any_load(loads, addend as int, 0)
        &&& f.1 == base + addend
    }
}

proof fn lemma_file_position_mapped(loads: Seq<ProgramHeader>, eoff: int)
    ensures
        file_position(loads, eoff) matches Some(fp) ==> exists|k: int|
            0 <= k < loads.len() && #[trigger] loads[k].vaddr <= eoff && eoff + RELA_SIZE
                <= loads[k].vaddr + loads[k].filesz && fp == loads[k].offset + (eoff
                - loads[k].vaddr),
    decreases loads.len(),
{
    if loads.len() > 0 {
        let rest = loads.drop_first();
        lemma_file_position_mapped(rest, eoff);
        if !(loads[0].vaddr <= eoff && eoff + RELA_SIZE <= loads[0].vaddr + loads[0].filesz) {
            if let Some(fp) = file_position(rest, eoff) {
                let k = choose|k: int|
                    0 <= k < rest.len() && #[trigger] rest[k].vaddr <= eoff && eoff + RELA_SIZE
                        <= rest[k].vaddr + rest[k].filesz && fp == rest[k].offset + (eoff
                        - rest[k].vaddr);
                assert(loads[k + 1] == rest[k]);
            }
        }
    }
}

proof fn lemma_relocation_fixup_ok(
    b: Seq<u8>,
    loads: Seq<ProgramHeader>,
    base: u64,
    prot: Seq<(u64, u64)>,
    eoff: int,
)
    requires
        relocation_fixup(b, loads, base, prot, eoff) is Ok,
    ensures
        rela_entry_ok(b, loads, base, prot, eoff, relocation_fixup(b, loads, base, prot, eoff)->Ok_0),
{
    lemma_file_position_mapped(loads, eoff);
}

proof fn lemma_fixups_from_entries(
    b: Seq<u8>,
    loads: Seq<ProgramHeader>,
    base: u64,
    prot: Seq<(u64, u64)>,
    table: u64,
    k: nat,
    count: nat,
    acc: Seq<(u64, u64)>,
)
    requires
        k <= count,
    ensures
        fixups_from(b, loads, base, prot, table, k, count, acc) matches Ok(f) ==> {
            &&& f.len() == acc.len() + (count - k)
            &&& forall|j: int| 0 <= j < acc.len() ==> #[trigger] f[j] == acc[j]
            &&& forall|j: int|
                k <= j < count ==> rela_entry_ok(
                    b,
                    loads,
                    base,
                    prot,
                    table + j * RELA_SIZE,
                    #[trigger] f[acc.len() + (j - k)],
                )
        },
    decreases count - k,
{
    if k < count {
        match relocation_fixup(b, loads, base, prot, table + k * RELA_SIZE) {
            Err(_) => {},
            Ok(x) => {
                lemma_relocation_fixup_ok(b, loads, base, prot, table + k * RELA_SIZE);
                let acc2 = acc.push(x);
                lemma_fixups_from_entries(b, loads, base, prot, table, k + 1, count, acc2);
                if let Ok(f) = fixups_from(b, loads, base, prot, table, k, count, acc) {
                    assert forall|j: int| 0 <= j < acc.len() implies #[trigger] f[j] == acc[j] by {
                        assert(f[j] == acc2[j]);
                    }
                    assert forall|j: int| k <= j < count implies rela_entry_ok(
                        b,
                        loads,
                        base,
                        prot,
                        table + j * RELA_SIZE,
                        #[trigger] f[acc.len() + (j - k)],
                    ) by {
                        if j == k {
                            assert(f[acc.len() as int] == acc2[acc.len() as int]);
                        } else {
                            assert(acc2.len() + (j - (k + 1)) == acc.len() + (j - k));
                        }
                    }
                }
            },
        }
    }
}

/// An accepted image's dynamic segment, when it has one, lies in the
/// file-backed bytes of a load segment at its own file offset and ends with
/// `DT_NULL`, no entry before it asking for more than RELATIVE fixups; its
/// RELA tags are all present or all absent. When present, the table has
/// 24-byte entries, a size that is a whole number of them, and lies in
/// loaded memory; the load writes one fixup per entry, in table order, and
/// each entry is read from file-backed bytes, is `R_AARCH64_RELATIVE`,
/// targets 8 aligned bytes of a writable segment outside the dynamic segment
/// and the table, and has a non-negative addend that points into (or just
/// past) a load segment, the fixup writing `base + addend`.
pub proof fn lemma_accepted_relocations(b: Seq<u8>, dest_len: nat, base: u64)
    requires
        load_plan(b, dest_len, base) is Ok,
    ensures
        ({
            let plan = load_plan(b, dest_len, base)->Ok_0;
            let h = header_check(b)->Ok_0;
            let loads = scan_headers(b, dest_len, base, h)->Ok_0.0;
            let dynamic = scan_headers(b, dest_len, base, h)->Ok_0.1;
            let tags = dynamic_tags(b, dynamic)->Ok_0;
            &&& dynamic matches Some(d) ==> dynamic_mapped(loads, d) && dynamic_terminated(
                b,
                d.offset as int,
                d.offset + d.filesz,
            )
            &&& match rela_table(tags)->Ok_0 {
                None => {
                    &&& tags == no_rela_tags()
                    &&& plan.fixups.len() == 0
                },
                Some((table, size)) => {
                    &&& tags == (RelaTags {
                        table: Some(table),
                        size: Some(size),
                        entry_size: Some(RELA_SIZE),
                    })
                    &&& size % RELA_SIZE == 0
                    &&& in_any_load(loads, table as int, size as int)
                    &&& plan.fixups.len() == size / RELA_SIZE
                    &&& forall|j: int|
                        0 <= j < plan.fixups.len() ==> rela_entry_ok(
                            b,
                            loads,
                            base,
                            protected_ranges(dynamic, table, size),
                            table + j * RELA_SIZE,
                            #[trigger] plan.fixups[j],
                        )
                },
            }
        }),
{
    let h = header_check(b)->Ok_0;
    let (loads, dynamic) = scan_headers(b, dest_len, base, h)->Ok_0;
    assert(segment_layout_error(loads, dynamic, h.entry, base) is None);
    if let Some(d) = dynamic {
        lemma_dynamic_tags_terminated(b, d.offset as int, d.offset + d.filesz, no_rela_tags());
    }
    let tags = dynamic_tags(b, dynamic)->Ok_0;
    let plan = load_plan(b, dest_len, base)->Ok_0;
    assert(rela_table(tags) is Ok);
    let rela = rela_table(tags)->Ok_0;
    assert(plan.fixups == relocation_fixups(b, loads, dynamic, base, rela)->Ok_0);
    match rela {
        None => {
            assert(tags == no_rela_tags());
        },
        Some((table, size)) => {
            assert(in_any_load(loads, table as int, size as int));
            let prot = protected_ranges(dynamic, table, size);
            lemma_fixups_from_entries(
                b,
                loads,
                base,
                prot,
                table,
                0,
                (size / RELA_SIZE) as nat,
                Seq::empty(),
            );
            assert forall|j: int| 0 <= j < plan.fixups.len() implies rela_entry_ok(
                b,
                loads,
                base,
                prot,
                table + j * RELA_SIZE,
                #[trigger] plan.fixups[j],
            ) by {
                assert(plan.fixups[0 + (j - 0)] == plan.fixups[j]);
            }
        },
    }
}


// ---- Which dynamic tags and placements are accepted -----------------------------
/// The dynamic tags a load refuses as asking for more than RELATIVE fixups
/// are exactly `DT_NEEDED` (1), `DT_REL` (17), `DT_RELSZ` (18), `DT_RELENT`
/// (19), `DT_TEXTREL` (22), `DT_JMPREL` (23), `DT_RELRSZ` (35), `DT_RELR`
/// (36) and `DT_RELRENT` (37).
pub proof fn lemma_refused_tags(tag: i64)
    ensures
        unsupported_tag(tag) <==> (tag == 1 || tag == 17 || tag == 18 || tag == 19 || tag == 22
            || tag == 23 || tag == 35 || tag == 36 || tag == 37),
{
}

/// A dynamic entry whose tag is neither `DT_NULL`, a RELA descriptor
/// (`DT_RELA` 7, `DT_RELASZ` 8, `DT_RELAENT` 9) nor one of the nine refused
/// tags, such as `DT_STRTAB`, is skipped: the scan goes on from the next entry
/// with the same tags.
pub proof fn lemma_metadata_tag_skipped(b: Seq<u8>, off: int, end: int, t: RelaTags)
    requires
        off + 16 <= end,
        le_i64(b, off) != 0 && le_i64(b, off) != 7 && le_i64(b, off) != 8 && le_i64(b, off) != 9,
        !(le_i64(b, off) == 1 || le_i64(b, off) == 17 || le_i64(b, off) == 18 || le_i64(b, off)
            == 19 || le_i64(b, off) == 22 || le_i64(b, off) == 23 || le_i64(b, off) == 35 || le_i64(
            b,
            off,
        ) == 36 || le_i64(b, off) == 37),
    ensures
        dynamic_tags_from(b, off, end, t) == dynamic_tags_from(b, off + 16, end, t),
{
}

/// The tag of dynamic entry `j` of the table at `off` is one of the nine
/// refused tags.
pub open spec fn refused_tag_at(b: Seq<u8>, off: int, j: nat) -> bool {
    let tag = le_i64(b, off + 16 * j);
    tag == 1 || tag == 17 || tag == 18 || tag == 19 || tag == 22 || tag == 23 || tag == 35 || tag
        == 36 || tag == 37
}

/// A dynamic table from `off` up to `end` none of whose entries carries one
/// of the nine refused tags is never refused as unsupported, whatever other
/// tags it holds.
pub proof fn lemma_dynamic_without_refused_tags(b: Seq<u8>, off: int, end: int, t: RelaTags)
    requires
        forall|j: nat| off + 16 * (j + 1) <= end ==> !#[trigger] refused_tag_at(b, off, j),
    ensures
        dynamic_tags_from(b, off, end, t) != Err::<RelaTags, ElfError>(ElfError::Unsupported),
    decreases end - off,
{
    if off + DYN_SIZE <= end {
        assert(!refused_tag_at(b, off, 0));
        assert(off + 16 * 0 == off);
        assert forall|j: nat| off + 16 + 16 * (j + 1) <= end implies !#[trigger] refused_tag_at(
            b,
            off + 16,
            j,
        ) by {
            assert(!refused_tag_at(b, off, j + 1));
            assert(off + 16 * ((j + 1) as nat) == off + 16 + 16 * j);
        }
        let tag = le_i64(b, off);
        let val = le_u64(b, off + 8) as u64;
        if tag != DT_NULL {
            let t2 = if tag == DT_RELA {
                RelaTags { table: Some(val), ..t }
            } else if tag == DT_RELASZ {
                RelaTags { size: Some(val), ..t }
            } else if tag == DT_RELAENT {
                RelaTags { entry_size: Some(val), ..t }
            } else {
                t
            };
            lemma_dynamic_without_refused_tags(b, off + 16, end, t2);
        }
    }
}

proof fn lemma_fixups_never_unsupported(
    b: Seq<u8>,
    loads: Seq<ProgramHeader>,
    base: u64,
    prot: Seq<(u64, u64)>,
    table: u64,
    k: nat,
    count: nat,
    acc: Seq<(u64, u64)>,
)
    ensures
        fixups_from(b, loads, base, prot, table, k, count, acc) != Err::<Seq<(u64, u64)>, ElfError>(
            ElfError::Unsupported,
        ),
    decreases count - k,
{
    if k < count {
        if let Ok(f) = relocation_fixup(b, loads, base, prot, table + k * RELA_SIZE) {
            lemma_fixups_never_unsupported(b, loads, base, prot, table, k + 1, count, acc.push(f));
        }
    }
}

/// Once the header and the program headers are accepted, a load whose
/// dynamic table carries none of the nine refused tags is never refused as
/// unsupported: other dynamic tags (metadata such as `DT_STRTAB`,
/// `DT_SYMTAB` or `DT_FLAGS_1`) are ignored.
pub proof fn lemma_metadata_tags_not_refused(b: Seq<u8>, dest_len: nat, base: u64)
    requires
        header_check(b) is Ok,
        scan_headers(b, dest_len, base, header_check(b)->Ok_0) is Ok,
        scan_headers(b, dest_len, base, header_check(b)->Ok_0)->Ok_0.1 matches Some(d) ==> forall|
            j: nat,
        | d.offset + 16 * (j + 1) <= d.offset + d.filesz ==> !#[trigger] refused_tag_at(
            b,
            d.offset as int,
            j,
        ),
    ensures
        load_plan(b, dest_len, base) != Err::<LoadPlan, ElfError>(ElfError::Unsupported),
{
    let h = header_check(b)->Ok_0;
    let (loads, dynamic) = scan_headers(b, dest_len, base, h)->Ok_0;
    if let Some(d) = dynamic {
        lemma_dynamic_without_refused_tags(
            b,
            d.offset as int,
            d.offset + d.filesz,
            no_rela_tags(),
        );
    }
    if let Ok(t) = dynamic_tags(b, dynamic) {
        if let Ok(Some((table, size))) = rela_table(t) {
            lemma_fixups_never_unsupported(
                b,
                loads,
                base,
                protected_ranges(dynamic, table, size),
                table,
                0,
                (size / RELA_SIZE) as nat,
                Seq::empty(),
            );
        }
    }
}

/// A dynamic segment that lies anywhere inside a load segment `loads[k]`
/// (its memory range within the segment's, its file bytes within the
/// segment's file-backed bytes, at the matching file offset) counts as
/// mapped, whether or not it starts where the segment starts: the layout
/// checks then decide as if there were no dynamic segment.
pub proof fn lemma_dynamic_inside_load(
    loads: Seq<ProgramHeader>,
    k: int,
    d: ProgramHeader,
    entry: u64,
    base: u64,
)
    requires
        0 <= k < loads.len(),
        loads[k].vaddr <= d.vaddr,
        d.vaddr + d.memsz <= loads[k].vaddr + loads[k].memsz,
        d.vaddr + d.filesz <= loads[k].vaddr + loads[k].filesz,
        loads[k].offset + (d.vaddr - loads[k].vaddr) == d.offset,
    ensures
        dynamic_mapped(loads, d),
        segment_layout_error(loads, Some(d), entry, base) == segment_layout_error(
            loads,
            None,
            entry,
            base,
        ),
{
    assert(maps_dynamic(loads[k], d));
}

} // verus!
