use winnow::elfview::{parse_rela_relative, ParsedElf, RelaRelative, Section};

fn put_u16(b: &mut Vec<u8>, v: u16) {
    b.extend_from_slice(&v.to_le_bytes());
}

fn put_u32(b: &mut Vec<u8>, v: u32) {
    b.extend_from_slice(&v.to_le_bytes());
}

fn put_u64(b: &mut Vec<u8>, v: u64) {
    b.extend_from_slice(&v.to_le_bytes());
}

#[allow(clippy::too_many_arguments)]
fn section_header(b: &mut Vec<u8>, name: u32, ty: u32, flags: u64, addr: u64, offset: u64, size: u64, align: u64, entsize: u64) {
    put_u32(b, name);
    put_u32(b, ty);
    put_u64(b, flags);
    put_u64(b, addr);
    put_u64(b, offset);
    put_u64(b, size);
    put_u32(b, 0);
    put_u32(b, 0);
    put_u64(b, align);
    put_u64(b, entsize);
}

/// A minimal x86-64 ELF executable with `.text` (4 bytes at 0x401000), a
/// `.rela.dyn` holding one relative and one non-relative relocation, and the
/// section-name table.
fn tiny_elf() -> Vec<u8> {
    let mut b: Vec<u8> = Vec::new();
    b.extend_from_slice(&[0x7F, b'E', b'L', b'F', 2, 1, 1, 0]);
    b.extend_from_slice(&[0; 8]);
    put_u16(&mut b, 2); // ET_EXEC
    put_u16(&mut b, 0x3E); // x86-64
    put_u32(&mut b, 1);
    put_u64(&mut b, 0x401000); // entry
    put_u64(&mut b, 0); // no program headers
    put_u64(&mut b, 160); // section headers
    put_u32(&mut b, 0);
    put_u16(&mut b, 64);
    put_u16(&mut b, 56);
    put_u16(&mut b, 0);
    put_u16(&mut b, 64);
    put_u16(&mut b, 4);
    put_u16(&mut b, 3);
    assert_eq!(b.len(), 64);
    // .text at 64..68
    b.extend_from_slice(&[0x90, 0x90, 0x90, 0xC3]);
    b.extend_from_slice(&[0; 4]);
    // .rela.dyn at 72..120: a RELATIVE entry, then a GLOB_DAT (type 6) one
    put_u64(&mut b, 0x401001);
    put_u64(&mut b, 8);
    put_u64(&mut b, 0);
    put_u64(&mut b, 0x402000);
    put_u64(&mut b, (1u64 << 32) | 6);
    put_u64(&mut b, 0);
    // .shstrtab at 120..147
    b.extend_from_slice(b"\0.text\0.rela.dyn\0.shstrtab\0");
    while b.len() < 160 {
        b.push(0);
    }
    section_header(&mut b, 0, 0, 0, 0, 0, 0, 0, 0);
    section_header(&mut b, 1, 1, 6, 0x401000, 64, 4, 16, 0);
    section_header(&mut b, 7, 4, 2, 0, 72, 48, 8, 24);
    section_header(&mut b, 17, 3, 0, 0, 120, 27, 1, 0);
    b
}

#[test]
fn parse_reads_text_and_relative_relocations() {
    let elf = ParsedElf::parse(&tiny_elf()).expect("a valid ELF");
    let text = elf.section(".text").expect(".text present");
    assert_eq!(text.vaddr, 0x401000);
    assert_eq!(text.data, vec![0x90, 0x90, 0x90, 0xC3]);
    assert!(elf.section(".rodata").is_none());
    assert!(elf.section(".data.rel.ro").is_none());
    assert!(elf.section(".bss").is_none());
    assert_eq!(elf.rela_relative, vec![RelaRelative { offset: 0x401001 }]);
}

#[test]
fn parse_rejects_bytes_that_are_not_an_object_file() {
    assert!(ParsedElf::parse(b"definitely not an ELF file").is_err());
    assert!(ParsedElf::parse(&[]).is_err());
}

#[test]
fn parse_rela_relative_keeps_only_relative_entries() {
    let mut d: Vec<u8> = Vec::new();
    put_u64(&mut d, 0x1000);
    put_u64(&mut d, 8);
    put_u64(&mut d, 0x55);
    put_u64(&mut d, 0x2000);
    put_u64(&mut d, 7);
    put_u64(&mut d, 0);
    put_u64(&mut d, 0x3000);
    put_u64(&mut d, (5u64 << 32) | 8);
    put_u64(&mut d, 0);
    d.extend_from_slice(&[1, 2, 3]); // trailing partial record
    assert_eq!(
        parse_rela_relative(&d),
        vec![RelaRelative { offset: 0x1000 }, RelaRelative { offset: 0x3000 }]
    );
    assert!(parse_rela_relative(&[]).is_empty());
}

#[test]
fn slice_at_stays_inside_the_section() {
    let s = Section {
        vaddr: 0x100,
        data: vec![1, 2, 3, 4],
    };
    assert_eq!(s.slice_at(0x101, 2), Some(&[2u8, 3][..]));
    assert_eq!(s.slice_at(0x100, 4), Some(&[1u8, 2, 3, 4][..]));
    assert_eq!(s.slice_at(0x103, 2), None);
    assert_eq!(s.slice_at(0xFF, 1), None);
    assert_eq!(s.slice_at(0x104, 0), Some(&[][..]));
    assert!(s.contains_vaddr(0x103));
    assert!(!s.contains_vaddr(0x104));
    assert!(!s.contains_vaddr(0xFF));
}
