use winnow::elfview::{RelaRelative, Section};
use winnow::mask::{mask_function, MaskByte, MaskedAtom};

fn text_section(fn_start: u64, bytes: Vec<u8>) -> Section {
    Section {
        vaddr: fn_start,
        data: bytes,
    }
}

#[test]
fn wildcard_count_counts_only_wildcards() {
    let atom = MaskedAtom {
        fn_start: 0,
        bytes: vec![MaskByte::Exact(1), MaskByte::Wildcard, MaskByte::Wildcard],
    };
    assert_eq!(atom.wildcard_count(), 2);
}

#[test]
fn masks_rip_relative_displacement_only() {
    // lea rax, [rip+0x10]
    let bytes = vec![0x48, 0x8D, 0x05, 0x10, 0x00, 0x00, 0x00];
    let fn_start = 0x1000;
    let text = text_section(fn_start, bytes.clone());
    let atom = mask_function(&text, &[], fn_start, fn_start + bytes.len() as u64).unwrap();

    assert_eq!(atom.bytes[0], MaskByte::Exact(0x48));
    assert_eq!(atom.bytes[1], MaskByte::Exact(0x8D));
    assert_eq!(atom.bytes[2], MaskByte::Exact(0x05));
    for b in &atom.bytes[3..7] {
        assert_eq!(*b, MaskByte::Wildcard);
    }
}

#[test]
fn masks_64_bit_absolute_immediate() {
    // movabs rax, 0x1122334455667788
    let mut bytes = vec![0x48, 0xB8];
    bytes.extend_from_slice(&0x1122334455667788u64.to_le_bytes());
    let fn_start = 0x2000;
    let text = text_section(fn_start, bytes.clone());
    let atom = mask_function(&text, &[], fn_start, fn_start + bytes.len() as u64).unwrap();

    assert_eq!(atom.bytes[0], MaskByte::Exact(0x48));
    assert_eq!(atom.bytes[1], MaskByte::Exact(0xB8));
    for b in &atom.bytes[2..10] {
        assert_eq!(*b, MaskByte::Wildcard);
    }
}

#[test]
fn masks_bytes_a_relocation_actually_patches() {
    // mov eax, 0x11223344, with a relocation patching fn_start+1.
    let bytes = vec![0xB8, 0x44, 0x33, 0x22, 0x11];
    let fn_start = 0x3000;
    let text = text_section(fn_start, bytes.clone());
    let rela = [RelaRelative {
        offset: fn_start + 1,
    }];
    let atom = mask_function(&text, &rela, fn_start, fn_start + bytes.len() as u64).unwrap();

    assert_eq!(atom.bytes[0], MaskByte::Exact(0xB8));
    for b in &atom.bytes[1..5] {
        assert_eq!(*b, MaskByte::Wildcard);
    }
}

#[test]
fn masks_direct_call_rel32() {
    let bytes = vec![0xE8, 0x51, 0x07, 0x10, 0x00];
    let fn_start = 0x5000;
    let text = text_section(fn_start, bytes.clone());
    let atom = mask_function(&text, &[], fn_start, fn_start + bytes.len() as u64).unwrap();

    assert_eq!(atom.bytes[0], MaskByte::Exact(0xE8));
    for b in &atom.bytes[1..5] {
        assert_eq!(*b, MaskByte::Wildcard);
    }
}

#[test]
fn masks_jmp_and_conditional_branch_rel32() {
    let mut bytes = vec![0xE9, 0x00, 0x01, 0x00, 0x00];
    bytes.extend_from_slice(&[0x0F, 0x84, 0x00, 0x02, 0x00, 0x00]);
    let fn_start = 0x6000;
    let text = text_section(fn_start, bytes.clone());
    let atom = mask_function(&text, &[], fn_start, fn_start + bytes.len() as u64).unwrap();

    assert_eq!(atom.bytes[0], MaskByte::Exact(0xE9));
    for b in &atom.bytes[1..5] {
        assert_eq!(*b, MaskByte::Wildcard);
    }
    assert_eq!(atom.bytes[5], MaskByte::Exact(0x0F));
    assert_eq!(atom.bytes[6], MaskByte::Exact(0x84));
    for b in &atom.bytes[7..11] {
        assert_eq!(*b, MaskByte::Wildcard);
    }
}

#[test]
fn masks_short_branch_rel8() {
    let bytes = vec![0xEB, 0x10, 0x74, 0x08];
    let fn_start = 0x7000;
    let text = text_section(fn_start, bytes.clone());
    let atom = mask_function(&text, &[], fn_start, fn_start + bytes.len() as u64).unwrap();

    assert_eq!(atom.bytes[0], MaskByte::Exact(0xEB));
    assert_eq!(atom.bytes[1], MaskByte::Wildcard);
    assert_eq!(atom.bytes[2], MaskByte::Exact(0x74));
    assert_eq!(atom.bytes[3], MaskByte::Wildcard);
}

#[test]
fn monomorphized_copies_collapse_after_masking() {
    let prefix = [0x4C, 0x39, 0xE9]; // cmp rcx, r13
    let mut a = prefix.to_vec();
    a.extend_from_slice(&[0xE8, 0x51, 0x07, 0x10, 0x00]);
    let mut b = prefix.to_vec();
    b.extend_from_slice(&[0xE8, 0x97, 0x06, 0x10, 0x00]);
    let fs = 0x8000;
    let atom_a = mask_function(&text_section(fs, a.clone()), &[], fs, fs + a.len() as u64).unwrap();
    let atom_b = mask_function(&text_section(fs, b.clone()), &[], fs, fs + b.len() as u64).unwrap();

    assert_ne!(a, b);
    assert_eq!(atom_a.bytes, atom_b.bytes);
    assert_eq!(atom_a.wildcard_count(), 4);
}

#[test]
fn relocation_spanning_two_instructions_is_fully_masked() {
    let bytes = vec![0x90u8; 12];
    let fn_start = 0x9000;
    let text = text_section(fn_start, bytes.clone());
    let rela = [RelaRelative {
        offset: fn_start + 2,
    }];
    let atom = mask_function(&text, &rela, fn_start, fn_start + bytes.len() as u64).unwrap();

    for (i, b) in atom.bytes.iter().enumerate() {
        let expect_wild = (2..10).contains(&i);
        assert_eq!(matches!(b, MaskByte::Wildcard), expect_wild, "byte {i}");
    }
}

#[test]
fn leaves_ordinary_stack_displacement_untouched() {
    // mov eax, [rbp-8]
    let bytes = vec![0x8B, 0x45, 0xF8];
    let fn_start = 0x4000;
    let text = text_section(fn_start, bytes.clone());
    let atom = mask_function(&text, &[], fn_start, fn_start + bytes.len() as u64).unwrap();

    assert_eq!(atom.wildcard_count(), 0);
    for (i, b) in atom.bytes.iter().enumerate() {
        assert_eq!(*b, MaskByte::Exact(bytes[i]));
    }
}

#[test]
fn masking_keeps_function_start_and_length() {
    let bytes = vec![0x90u8; 5];
    let fn_start = 0xA000;
    let text = text_section(fn_start, bytes.clone());
    let atom = mask_function(&text, &[], fn_start, fn_start + 5).unwrap();
    assert_eq!(atom.fn_start, fn_start);
    assert_eq!(atom.bytes.len(), 5);
}

#[test]
fn masking_a_function_outside_text_gives_none() {
    let text = text_section(0x1000, vec![0x90u8; 4]);
    assert!(mask_function(&text, &[], 0x1002, 0x1008).is_none());
    assert!(mask_function(&text, &[], 0x0800, 0x0804).is_none());
}

#[test]
fn relocation_past_the_function_end_is_clipped() {
    // An 8-byte relocation starting two bytes before the end only masks the
    // two bytes inside the function.
    let bytes = vec![0x90u8; 6];
    let fn_start = 0xB000;
    let text = text_section(fn_start, bytes.clone());
    let rela = [RelaRelative {
        offset: fn_start + 4,
    }];
    let atom = mask_function(&text, &rela, fn_start, fn_start + 6).unwrap();
    assert_eq!(atom.wildcard_count(), 2);
    assert_eq!(atom.bytes[3], MaskByte::Exact(0x90));
    assert_eq!(atom.bytes[4], MaskByte::Wildcard);
}
