// Further checks of the ELF loader: field readers, each refusal, and the
// properties every accepted load has.

use ferros::elf::{i64_at, load_elf_at, power_of_two, u16_at, u32_at, u64_at};
use ferros::elf_spec::ElfError;

const BASE: u64 = 0x8_0000;

fn header(phnum: u16, entry: u64) -> Vec<u8> {
    let mut h = vec![0u8; 64];
    h[0..4].copy_from_slice(&[0x7f, b'E', b'L', b'F']);
    h[4] = 2;
    h[5] = 1;
    h[6] = 1;
    h[16..18].copy_from_slice(&3u16.to_le_bytes());
    h[18..20].copy_from_slice(&183u16.to_le_bytes());
    h[20..24].copy_from_slice(&1u32.to_le_bytes());
    h[24..32].copy_from_slice(&entry.to_le_bytes());
    h[32..40].copy_from_slice(&64u64.to_le_bytes());
    h[52..54].copy_from_slice(&64u16.to_le_bytes());
    h[54..56].copy_from_slice(&56u16.to_le_bytes());
    h[56..58].copy_from_slice(&phnum.to_le_bytes());
    h
}

fn phdr(p_type: u32, flags: u32, offset: u64, vaddr: u64, filesz: u64, memsz: u64, align: u64) -> Vec<u8> {
    let mut p = Vec::new();
    p.extend_from_slice(&p_type.to_le_bytes());
    p.extend_from_slice(&flags.to_le_bytes());
    p.extend_from_slice(&offset.to_le_bytes());
    p.extend_from_slice(&vaddr.to_le_bytes());
    p.extend_from_slice(&vaddr.to_le_bytes());
    p.extend_from_slice(&filesz.to_le_bytes());
    p.extend_from_slice(&memsz.to_le_bytes());
    p.extend_from_slice(&align.to_le_bytes());
    p
}

/// An image with the given program headers, padded with `fill` bytes up to
/// `len`.
fn image(headers: &[Vec<u8>], entry: u64, len: usize, fill: u8) -> Vec<u8> {
    let mut img = header(headers.len() as u16, entry);
    for h in headers {
        img.extend_from_slice(h);
    }
    if img.len() < len {
        img.resize(len, fill);
    }
    img
}

const CODE: u32 = 1 | 4;
const DATA: u32 = 2 | 4;

#[test]
fn field_readers_are_little_endian() {
    let b = [0x01u8, 0x02, 0x03, 0x04, 0x05, 0x06, 0x07, 0x88];
    assert_eq!(u16_at(&b, 0), Ok(0x0201));
    assert_eq!(u32_at(&b, 4), Ok(0x8807_0605));
    assert_eq!(u64_at(&b, 0), Ok(0x8807_0605_0403_0201));
    assert_eq!(i64_at(&b, 0), Ok(0x8807_0605_0403_0201u64 as i64));
    assert!(i64_at(&b, 0).unwrap() < 0);
    assert_eq!(u16_at(&b, 7), Err(ElfError::Truncated));
    assert_eq!(u32_at(&b, 5), Err(ElfError::Truncated));
    assert_eq!(u64_at(&b, 1), Err(ElfError::Truncated));
    assert_eq!(u64_at(&b, usize::MAX), Err(ElfError::Truncated));
}

#[test]
fn power_of_two_alignments() {
    assert!(power_of_two(1));
    assert!(power_of_two(2));
    assert!(power_of_two(0x1000));
    assert!(power_of_two(1 << 63));
    assert!(!power_of_two(0));
    assert!(!power_of_two(3));
    assert!(!power_of_two(0x1800));
}

#[test]
fn refusals_carry_their_error() {
    let code = phdr(1, CODE, 0x100, 0, 8, 8, 1);
    let mut dest = vec![0x5a; 0x100];
    // Program header table past the end of the file.
    let mut img = image(&[code.clone()], 0, 0x108, 0);
    img[32..40].copy_from_slice(&0x200u64.to_le_bytes());
    assert_eq!(load_elf_at(&img, &mut dest, BASE), Err(ElfError::Truncated));
    // Program header table offset that overflows with the table size.
    img[32..40].copy_from_slice(&(u64::MAX - 8).to_le_bytes());
    assert_eq!(load_elf_at(&img, &mut dest, BASE), Err(ElfError::Truncated));
    // File bytes past the end of the image.
    let img = image(&[phdr(1, CODE, 0x100, 0, 0x40, 0x40, 1)], 0, 0x108, 0);
    assert_eq!(load_elf_at(&img, &mut dest, BASE), Err(ElfError::OutOfBounds));
    // Interpreter and TLS segments.
    let img = image(&[code.clone(), phdr(3, 4, 0, 0, 0, 0, 1)], 0, 0x108, 0);
    assert_eq!(load_elf_at(&img, &mut dest, BASE), Err(ElfError::Unsupported));
    let img = image(&[code.clone(), phdr(7, 4, 0, 0, 0, 0, 1)], 0, 0x108, 0);
    assert_eq!(load_elf_at(&img, &mut dest, BASE), Err(ElfError::Unsupported));
    // Other segment types are ignored.
    let img = image(&[code.clone(), phdr(0x6474_e551, 6, 0, 0, 0, 0, 16)], 0, 0x108, 0);
    assert_eq!(load_elf_at(&img, &mut dest, BASE), Ok(BASE));
    // A load base that misses the segment alignment.
    let mut dest = vec![0x5a; 0x100];
    let img = image(&[phdr(1, CODE, 0x100, 0, 8, 8, 0x100)], 0, 0x108, 0);
    assert_eq!(load_elf_at(&img, &mut dest, BASE + 0x10), Err(ElfError::InvalidSegment));
    assert_eq!(load_elf_at(&img, &mut dest, BASE), Ok(BASE));
    // An entry address that overflows once relocated.
    let mut dest = vec![0x5a; 0x100];
    let img = image(&[code.clone()], 0, 0x108, 0);
    assert_eq!(load_elf_at(&img, &mut dest, u64::MAX - 2), Err(ElfError::InvalidEntry));
    assert!(dest.iter().all(|&b| b == 0x5a));
}

#[test]
fn at_most_thirty_two_load_segments() {
    let mut headers = Vec::new();
    for i in 0..33u64 {
        headers.push(phdr(1, CODE, 0x800, i * 8, 4, 8, 1));
    }
    let img = image(&headers, 0, 0x808, 0);
    let mut dest = vec![0; 0x200];
    assert_eq!(load_elf_at(&img, &mut dest, BASE), Err(ElfError::Unsupported));
    headers.pop();
    let img = image(&headers, 0, 0x808, 0);
    assert_eq!(load_elf_at(&img, &mut dest, BASE), Ok(BASE));
}

#[test]
fn segment_starting_inside_another_is_refused() {
    let mut dest = vec![0; 0x100];
    // Touching segments are fine.
    let img = image(
        &[phdr(1, CODE, 0x100, 0, 8, 0x10, 1), phdr(1, DATA, 0x108, 0x10, 8, 8, 1)],
        0,
        0x110,
        0,
    );
    assert_eq!(load_elf_at(&img, &mut dest, BASE), Ok(BASE));
    // The second header listed first starts inside it: refused either way.
    let img = image(
        &[phdr(1, DATA, 0x108, 0xc, 4, 8, 1), phdr(1, CODE, 0x100, 0, 8, 0x10, 1)],
        0,
        0x110,
        0,
    );
    assert_eq!(load_elf_at(&img, &mut dest, BASE), Err(ElfError::InvalidSegment));
    // An empty segment at the start of a non-empty one starts inside it.
    let img = image(
        &[phdr(1, CODE, 0x100, 0, 8, 0x10, 1), phdr(1, DATA, 0x100, 0, 0, 0, 1)],
        0,
        0x110,
        0,
    );
    assert_eq!(load_elf_at(&img, &mut dest, BASE), Err(ElfError::InvalidSegment));
}

#[test]
fn load_copies_zeroes_and_keeps_gaps() {
    // Code at 0..8 (file 8 bytes), data at 0x40..0x60 (file 4 bytes, bss 28).
    let mut img = image(
        &[phdr(1, CODE, 0x100, 0, 8, 8, 4), phdr(1, DATA, 0x108, 0x40, 4, 0x20, 8)],
        4,
        0x10c,
        0,
    );
    img[0x100..0x10c].copy_from_slice(&[1, 2, 3, 4, 5, 6, 7, 8, 9, 10, 11, 12]);
    let mut dest = vec![0xee; 0x80];
    assert_eq!(load_elf_at(&img, &mut dest, BASE), Ok(BASE + 4));
    assert_eq!(&dest[0..8], &[1, 2, 3, 4, 5, 6, 7, 8]);
    assert!(dest[8..0x40].iter().all(|&b| b == 0xee));
    assert_eq!(&dest[0x40..0x44], &[9, 10, 11, 12]);
    assert!(dest[0x44..0x60].iter().all(|&b| b == 0));
    assert!(dest[0x60..].iter().all(|&b| b == 0xee));
}

/// One code segment, one data segment holding slots at 0x40 and 0x48, and a
/// dynamic table with `relas` RELATIVE entries at 0x100.
fn relocated_image(relas: &[(u64, i64)]) -> Vec<u8> {
    let rela_size = 24 * relas.len() as u64;
    let mut dyn_table = Vec::new();
    for (tag, val) in [(7i64, 0x100u64), (8, rela_size), (9, 24), (0x6fff_fff9, relas.len() as u64), (0, 0)] {
        dyn_table.extend_from_slice(&tag.to_le_bytes());
        dyn_table.extend_from_slice(&val.to_le_bytes());
    }
    let mut rela = Vec::new();
    for &(target, addend) in relas {
        rela.extend_from_slice(&target.to_le_bytes());
        rela.extend_from_slice(&1027u64.to_le_bytes());
        rela.extend_from_slice(&addend.to_le_bytes());
    }
    let mut img = image(
        &[
            phdr(1, CODE, 0x200, 0, 4, 4, 1),
            phdr(1, DATA, 0x208, 0x40, 0x10, 0x10, 8),
            phdr(1, 4, 0x280, 0x80, 0xe0, 0xe0, 8),
            phdr(2, 6, 0x280, 0x80, dyn_table.len() as u64, dyn_table.len() as u64, 8),
        ],
        0,
        0x360,
        0,
    );
    img[0x280..0x280 + dyn_table.len()].copy_from_slice(&dyn_table);
    img[0x300..0x300 + rela.len()].copy_from_slice(&rela);
    img
}

#[test]
fn relocations_write_base_plus_addend() {
    let img = relocated_image(&[(0x40, 0x80), (0x48, 0x50)]);
    let mut dest = vec![0; 0x200];
    assert_eq!(load_elf_at(&img, &mut dest, BASE), Ok(BASE));
    assert_eq!(u64::from_le_bytes(dest[0x40..0x48].try_into().unwrap()), BASE + 0x80);
    assert_eq!(u64::from_le_bytes(dest[0x48..0x50].try_into().unwrap()), BASE + 0x50);
    // A later fixup of the same slot wins.
    let img = relocated_image(&[(0x40, 0x80), (0x40, 0x44)]);
    let mut dest = vec![0; 0x200];
    assert_eq!(load_elf_at(&img, &mut dest, BASE), Ok(BASE));
    assert_eq!(u64::from_le_bytes(dest[0x40..0x48].try_into().unwrap()), BASE + 0x44);
    // An addend one past the end of a segment is allowed; past that it is not.
    let img = relocated_image(&[(0x40, 0x160)]);
    let mut dest = vec![0; 0x200];
    assert_eq!(load_elf_at(&img, &mut dest, BASE), Ok(BASE));
    let img = relocated_image(&[(0x40, 0x161)]);
    let mut dest = vec![0; 0x200];
    assert_eq!(load_elf_at(&img, &mut dest, BASE), Err(ElfError::InvalidRelocation));
    assert!(dest.iter().all(|&b| b == 0));
    // A base that cannot hold the addend.
    let img = relocated_image(&[(0x40, 0x80)]);
    let mut dest = vec![0; 0x200];
    assert_eq!(
        load_elf_at(&img, &mut dest, u64::MAX - 0x7f),
        Err(ElfError::InvalidRelocation)
    );
}
