use winnow::behavior::{extract_behavior_strings, WINDOW};
use winnow::elfview::Section;

const FN_START: u64 = 0x1000;

/// `lea <reg>, [rip+disp32]` targeting `target_vaddr`, given the address
/// (`next_ip`) of the instruction immediately after it. `reg_field` is the
/// ModR/M reg number (rax=0, rcx=1, rdx=2, rsi=6).
fn lea_bytes(reg_field: u8, target_vaddr: u64, next_ip: u64) -> [u8; 7] {
    let disp = (target_vaddr as i64 - next_ip as i64) as i32;
    let d = disp.to_le_bytes();
    let modrm = (reg_field << 3) | 0x05;
    [0x48, 0x8D, modrm, d[0], d[1], d[2], d[3]]
}

/// `mov edx, imm32`: the length half of a fat-pointer pairing.
fn mov_edx_imm32(len: u32) -> [u8; 5] {
    let b = len.to_le_bytes();
    [0xBA, b[0], b[1], b[2], b[3]]
}

fn text_section(bytes: &[u8]) -> Section {
    Section {
        vaddr: FN_START,
        data: bytes.to_vec(),
    }
}

fn rodata_section(vaddr: u64, data: &[u8]) -> Section {
    Section {
        vaddr,
        data: data.to_vec(),
    }
}

#[test]
fn extracts_string_from_zero_gap_lea_mov_pair() {
    let rodata_vaddr = 0x2000;
    let s = b"hello world";
    let lea = lea_bytes(0, rodata_vaddr, FN_START + 7);
    let mov = mov_edx_imm32(s.len() as u32);
    let mut fn_bytes = lea.to_vec();
    fn_bytes.extend_from_slice(&mov);
    let fn_end = FN_START + fn_bytes.len() as u64;

    let text = text_section(&fn_bytes);
    let rodata = rodata_section(rodata_vaddr, s);

    let found = extract_behavior_strings(&text, &rodata, FN_START, fn_end);
    assert_eq!(found.len(), 1);
    assert_eq!(found[0].text, "hello world");
    assert_eq!(found[0].fn_start, FN_START);
}

#[test]
fn extracts_across_unrelated_arg_setup_gap() {
    // `lea rsi,[rip+STR]; lea rdi,[rsp+buf]; mov edx,LEN`: the length sits
    // two instructions past the string lea.
    let rodata_vaddr = 0x2000;
    let s = b"hello world";
    let lea_str = lea_bytes(6, rodata_vaddr, FN_START + 7);
    let lea_buf = [0x48, 0x8D, 0x7C, 0x24, 0x08];
    let mov = mov_edx_imm32(s.len() as u32);
    let mut fn_bytes = lea_str.to_vec();
    fn_bytes.extend_from_slice(&lea_buf);
    fn_bytes.extend_from_slice(&mov);
    let fn_end = FN_START + fn_bytes.len() as u64;

    let text = text_section(&fn_bytes);
    let rodata = rodata_section(rodata_vaddr, s);

    let found = extract_behavior_strings(&text, &rodata, FN_START, fn_end);
    assert_eq!(found.len(), 1);
    assert_eq!(found[0].text, "hello world");
}

#[test]
fn extracts_length_from_push_pop_idiom() {
    let rodata_vaddr = 0x2000;
    let s = b"hello world";
    let lea = lea_bytes(0, rodata_vaddr, FN_START + 7);
    let mut fn_bytes = lea.to_vec();
    fn_bytes.extend_from_slice(&[0x6A, 0x0B]); // push 0x0B
    fn_bytes.push(0x5A); // pop rdx
    let fn_end = FN_START + fn_bytes.len() as u64;

    let text = text_section(&fn_bytes);
    let rodata = rodata_section(rodata_vaddr, s);

    let found = extract_behavior_strings(&text, &rodata, FN_START, fn_end);
    assert_eq!(found.len(), 1);
    assert_eq!(found[0].text, "hello world");
}

#[test]
fn does_not_pair_after_pointer_register_is_clobbered() {
    let rodata_vaddr = 0x2000;
    let s = b"hello world";
    let lea = lea_bytes(0, rodata_vaddr, FN_START + 7);
    let clobber = [0x48, 0x89, 0xF0]; // mov rax, rsi
    let mov = mov_edx_imm32(s.len() as u32);
    let mut fn_bytes = lea.to_vec();
    fn_bytes.extend_from_slice(&clobber);
    fn_bytes.extend_from_slice(&mov);
    let fn_end = FN_START + fn_bytes.len() as u64;

    let text = text_section(&fn_bytes);
    let rodata = rodata_section(rodata_vaddr, s);

    let found = extract_behavior_strings(&text, &rodata, FN_START, fn_end);
    assert!(found.is_empty());
}

#[test]
fn does_not_pair_beyond_the_window() {
    let rodata_vaddr = 0x2000;
    let s = b"hello world";
    let lea = lea_bytes(0, rodata_vaddr, FN_START + 7);
    let mut fn_bytes = lea.to_vec();
    for _ in 0..WINDOW {
        fn_bytes.push(0x90);
    }
    fn_bytes.extend_from_slice(&mov_edx_imm32(s.len() as u32));
    let fn_end = FN_START + fn_bytes.len() as u64;

    let text = text_section(&fn_bytes);
    let rodata = rodata_section(rodata_vaddr, s);

    let found = extract_behavior_strings(&text, &rodata, FN_START, fn_end);
    assert!(found.is_empty());
}

#[test]
fn excludes_strings_that_look_like_source_paths() {
    let rodata_vaddr = 0x2000;
    let s = b"src/main.rs";
    let lea = lea_bytes(0, rodata_vaddr, FN_START + 7);
    let mov = mov_edx_imm32(s.len() as u32);
    let mut fn_bytes = lea.to_vec();
    fn_bytes.extend_from_slice(&mov);
    let fn_end = FN_START + fn_bytes.len() as u64;

    let text = text_section(&fn_bytes);
    let rodata = rodata_section(rodata_vaddr, s);

    let found = extract_behavior_strings(&text, &rodata, FN_START, fn_end);
    assert!(found.is_empty());
}

#[test]
fn rejects_length_below_minimum() {
    let rodata_vaddr = 0x2000;
    let lea = lea_bytes(0, rodata_vaddr, FN_START + 7);
    let mov = mov_edx_imm32(3);
    let mut fn_bytes = lea.to_vec();
    fn_bytes.extend_from_slice(&mov);
    let fn_end = FN_START + fn_bytes.len() as u64;

    let text = text_section(&fn_bytes);
    let rodata = rodata_section(rodata_vaddr, &[]);

    let found = extract_behavior_strings(&text, &rodata, FN_START, fn_end);
    assert!(found.is_empty());
}

#[test]
fn rejects_non_printable_slice() {
    let rodata_vaddr = 0x2000;
    let data = b"hello\x00world";
    let lea = lea_bytes(0, rodata_vaddr, FN_START + 7);
    let mov = mov_edx_imm32(11);
    let mut fn_bytes = lea.to_vec();
    fn_bytes.extend_from_slice(&mov);
    let fn_end = FN_START + fn_bytes.len() as u64;

    let text = text_section(&fn_bytes);
    let rodata = rodata_section(rodata_vaddr, data);

    let found = extract_behavior_strings(&text, &rodata, FN_START, fn_end);
    assert!(found.is_empty());
}

#[test]
fn pairs_length_stored_to_memory() {
    // `lea rax,[rip+STR]; mov qword [rsp+8], 11`: the fat pointer's length
    // half written straight to the stack.
    let rodata_vaddr = 0x3000;
    let s = b"hello world";
    let lea = lea_bytes(0, rodata_vaddr, FN_START + 7);
    let mut fn_bytes = lea.to_vec();
    fn_bytes.extend_from_slice(&[0x48, 0xC7, 0x44, 0x24, 0x08, 0x0B, 0x00, 0x00, 0x00]);
    let fn_end = FN_START + fn_bytes.len() as u64;

    let text = text_section(&fn_bytes);
    let rodata = rodata_section(rodata_vaddr, s);

    let found = extract_behavior_strings(&text, &rodata, FN_START, fn_end);
    assert_eq!(found.len(), 1);
    assert_eq!(found[0].text, "hello world");
}

#[test]
fn ignores_lea_that_targets_outside_rodata() {
    let rodata_vaddr = 0x2000;
    let s = b"hello world";
    let lea = lea_bytes(0, 0x9000, FN_START + 7);
    let mov = mov_edx_imm32(s.len() as u32);
    let mut fn_bytes = lea.to_vec();
    fn_bytes.extend_from_slice(&mov);
    let fn_end = FN_START + fn_bytes.len() as u64;

    let text = text_section(&fn_bytes);
    let rodata = rodata_section(rodata_vaddr, s);

    let found = extract_behavior_strings(&text, &rodata, FN_START, fn_end);
    assert!(found.is_empty());
}

#[test]
fn function_outside_text_yields_nothing() {
    let text = text_section(&[0x90; 16]);
    let rodata = rodata_section(0x2000, b"hello world");
    let found = extract_behavior_strings(&text, &rodata, 0x8000, 0x8010);
    assert!(found.is_empty());
}
