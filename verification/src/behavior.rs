//! Independent non-panic author-data factor.
//!
//! Rust builds a `&str` literal as a fat pointer: `lea reg, [rip + X]` loads
//! the pointer into `.rodata`, and a nearby instruction supplies the length.
//! This module re-derives those pairs. After each `.rodata`-targeting `lea`
//! it scans a short forward window, stopping the moment the pointer register
//! is redefined (so a stale `lea` is never spliced onto an unrelated later
//! length). The length is the first in-range immediate assigned to a
//! different register or to memory, or pushed and then popped into a
//! different register, whose `.rodata[target..target + len]` slice is exactly
//! printable and does not look like a source path.
//!
//! This module only harvests candidates; independence from the panic strings
//! and rarity against the benign corpus are enforced by the caller.
use vstd::prelude::*;

use crate::elfview::{section_slice, Section};
use crate::text::push_char;
use crate::x86::{
    decode_all, is_sweep, Immediates, InsnClass, OperandKind,
    RegAccess, RegUse, X86Insn,
};

verus! {

/// Shortest string length worth keeping.
pub const MIN_LEN: usize = 6;

/// Longest string length worth keeping.
pub const MAX_LEN: usize = 200;

/// How many instructions after a `.rodata` `lea` are searched for its length.
pub const WINDOW: usize = 8;

/// A printable author string recovered from a function.
#[derive(Debug, Clone)]
pub struct BehaviorString {
    pub fn_start: u64,
    pub text: String,
}

/// Where an instruction puts a candidate length.
#[derive(Debug, Clone, Copy, PartialEq, Eq, Structural)]
pub enum LenSrc {
    /// `mov reg, imm`: `reg` carries the length.
    RegImm { dest_full: u32, imm: u64 },
    /// `mov [mem], imm`: the length half of a fat pointer stored to memory.
    MemImm { imm: u64 },
    /// `push imm`: pairs with a following `pop reg`.
    PushImm { imm: u64 },
    /// `pop reg`: consumes a pending `push imm` as the length.
    Pop { dest_full: u32 },
}

/// One decoded instruction, reduced to what the pairing scan needs.
pub struct Decoded {
    /// `Some((pointer register, target))` for a `lea reg, [rip + X]` whose
    /// target lands in `.rodata`.
    pub lea_target: Option<(u32, u64)>,
    pub len_src: Option<LenSrc>,
    /// Full registers this instruction writes.
    pub writes: Vec<u32>,
}

/// Value of an immediate operand of kind `kind`, normalized to `u64`.
pub open spec fn imm_value(kind: OperandKind, imm: Immediates) -> Option<u64> {
    match kind {
        OperandKind::Immediate8 => Some(imm.imm8 as u64),
        OperandKind::Immediate16 => Some(imm.imm16 as u64),
        OperandKind::Immediate32 => Some(imm.imm32 as u64),
        OperandKind::Immediate64 => Some(imm.imm64),
        OperandKind::Immediate8to16 => Some(imm.imm8to16 as u16 as u64),
        OperandKind::Immediate8to32 => Some(imm.imm8to32 as u32 as u64),
        OperandKind::Immediate8to64 => Some(imm.imm8to64 as u64),
        OperandKind::Immediate32to64 => Some(imm.imm32to64 as u64),
        _ => None,
    }
}

/// The candidate length an instruction supplies, if any.
pub open spec fn len_src_of(insn: X86Insn) -> Option<LenSrc> {
    match insn.class {
        InsnClass::Push => match imm_value(insn.op0, insn.immediates) {
            Some(imm) => Some(LenSrc::PushImm { imm }),
            None => None,
        },
        InsnClass::Pop => if insn.op0 == OperandKind::Register {
            Some(LenSrc::Pop { dest_full: insn.op0_full_register })
        } else {
            None
        },
        InsnClass::Mov => match insn.op0 {
            OperandKind::Register => match imm_value(insn.op1, insn.immediates) {
                Some(imm) => Some(LenSrc::RegImm { dest_full: insn.op0_full_register, imm }),
                None => None,
            },
            OperandKind::Memory => match imm_value(insn.op1, insn.immediates) {
                Some(imm) => Some(LenSrc::MemImm { imm }),
                None => None,
            },
            _ => None,
        },
        _ => None,
    }
}

/// The `.rodata` pointer an instruction loads, if it is a `lea reg, [rip + X]`
/// with `X` inside `.rodata`.
pub open spec fn lea_target_of(insn: X86Insn, rodata_vaddr: u64, rodata_len: nat) -> Option<(u32, u64)> {
    if insn.class == InsnClass::Lea && insn.rip_based && rodata_vaddr <= insn.displacement
        && insn.displacement - rodata_vaddr < rodata_len {
        Some((insn.op0_full_register, insn.displacement))
    } else {
        None
    }
}

/// An access that writes the register.
pub open spec fn is_write(a: RegAccess) -> bool {
    a == RegAccess::Write || a == RegAccess::ReadWrite || a == RegAccess::CondWrite
        || a == RegAccess::ReadCondWrite
}

/// Full registers written, in the order the instruction lists them.
pub open spec fn written_registers(used: Seq<RegUse>) -> Seq<u32>
    decreases used.len(),
{
    if used.len() == 0 {
        Seq::empty()
    } else {
        let prev = written_registers(used.drop_last());
        if is_write(used.last().access) {
            prev.push(used.last().full_register)
        } else {
            prev
        }
    }
}

/// `d` is the reduction of `insn` against `.rodata`.
pub open spec fn reduces(d: Decoded, insn: X86Insn, rodata_vaddr: u64, rodata_len: nat) -> bool {
    &&& d.lea_target == lea_target_of(insn, rodata_vaddr, rodata_len)
    &&& d.len_src == len_src_of(insn)
    &&& d.writes@ == written_registers(insn.used_registers@)
}

/// `ds` is the reduction, against `.rodata`, of the linear sweep of `bytes`
/// decoded from instruction pointer `ip`.
pub open spec fn reduced_sweep(ds: Seq<Decoded>, bytes: Seq<u8>, ip: u64, rodata_vaddr: u64, rodata_len: nat) -> bool {
    exists|insns: Seq<X86Insn>|
        #[trigger] is_sweep(insns, bytes, ip) && insns.len() == ds.len() && forall|k: int|
            0 <= k < ds.len() ==> reduces(#[trigger] ds[k], insns[k], rodata_vaddr, rodata_len)
}

/// A printable ASCII byte.
pub open spec fn is_printable(b: u8) -> bool {
    0x20 <= b <= 0x7e
}

/// The bytes end with `.rs` or contain `src/`.
pub open spec fn looks_like_source_path(b: Seq<u8>) -> bool {
    ||| (b.len() >= 3 && b.subrange(b.len() - 3, b.len() as int) == seq![0x2eu8, 0x72u8, 0x73u8])
    ||| exists|i: int| 0 <= i && i + 4 <= b.len() && #[trigger] b.subrange(i, i + 4) == seq![0x73u8, 0x72u8, 0x63u8, 0x2fu8]
}

/// The string `.rodata` holds at `[vaddr, vaddr + len)`, if that range lies in
/// the section, is all printable, and does not look like a source path.
pub open spec fn string_at(rodata_vaddr: u64, rodata: Seq<u8>, vaddr: u64, len: usize) -> Option<Seq<char>> {
    match section_slice(rodata_vaddr, rodata, vaddr, len) {
        Some(b) => if (forall|i: int| 0 <= i < b.len() ==> is_printable(#[trigger] b[i]))
            && !looks_like_source_path(b) {
            Some(b.map_values(|x: u8| x as char))
        } else {
            None
        },
        None => None,
    }
}

/// A candidate length that carves a kept string out of `.rodata`.
pub open spec fn accepted_string(rodata_vaddr: u64, rodata: Seq<u8>, target: u64, len: u64) -> Option<Seq<char>> {
    let l = len as usize;
    if MIN_LEN <= l <= MAX_LEN {
        string_at(rodata_vaddr, rodata, target, l)
    } else {
        None
    }
}

/// Scan `ds[j..end]` for the length of the string that `ptr` points to.
pub open spec fn scan_length(
    ds: Seq<Decoded>,
    ptr: u32,
    target: u64,
    j: int,
    end: int,
    pending: Option<u64>,
    rodata_vaddr: u64,
    rodata: Seq<u8>,
) -> Option<Seq<char>>
    decreases end - j,
{
    if j < 0 || j >= end || j >= ds.len() {
        None
    } else if ds[j].writes@.contains(ptr) {
        None
    } else {
        match ds[j].len_src {
            Some(LenSrc::PushImm { imm }) => scan_length(ds, ptr, target, j + 1, end, Some(imm), rodata_vaddr, rodata),
            src => {
                let candidate = match src {
                    Some(LenSrc::RegImm { dest_full, imm }) => if dest_full != ptr {
                        Some(imm)
                    } else {
                        None
                    },
                    Some(LenSrc::MemImm { imm }) => Some(imm),
                    Some(LenSrc::Pop { dest_full }) => if dest_full != ptr {
                        pending
                    } else {
                        None
                    },
                    _ => None,
                };
                match candidate {
                    Some(len) => match accepted_string(rodata_vaddr, rodata, target, len) {
                        Some(s) => Some(s),
                        None => scan_length(ds, ptr, target, j + 1, end, None, rodata_vaddr, rodata),
                    },
                    None => scan_length(ds, ptr, target, j + 1, end, None, rodata_vaddr, rodata),
                }
            },
        }
    }
}

/// End of the length window after the `lea` at `i`.
pub open spec fn window_end(i: int, n: int) -> int {
    if i + 1 + WINDOW < n {
        i + 1 + WINDOW
    } else {
        n
    }
}

/// The string paired with the `lea` at `ds[i]`, if any.
pub open spec fn string_for_lea(ds: Seq<Decoded>, i: int, rodata_vaddr: u64, rodata: Seq<u8>) -> Option<Seq<char>> {
    match ds[i].lea_target {
        Some((ptr, target)) => scan_length(ds, ptr, target, i + 1, window_end(i, ds.len() as int), None, rodata_vaddr, rodata),
        None => None,
    }
}

/// Strings paired with the `lea`s among `ds[0..m]`, in instruction order.
pub open spec fn paired_strings(ds: Seq<Decoded>, m: int, rodata_vaddr: u64, rodata: Seq<u8>) -> Seq<Seq<char>>
    decreases m,
{
    if m <= 0 {
        Seq::empty()
    } else {
        let prev = paired_strings(ds, m - 1, rodata_vaddr, rodata);
        match string_for_lea(ds, m - 1, rodata_vaddr, rodata) {
            Some(s) => prev.push(s),
            None => prev,
        }
    }
}

/// `out` holds `texts`, each tagged with `fn_start`.
pub open spec fn tagged(out: Seq<BehaviorString>, texts: Seq<Seq<char>>, fn_start: u64) -> bool {
    &&& out.len() == texts.len()
    &&& forall|k: int| 0 <= k < out.len() ==> (#[trigger] out[k]).fn_start == fn_start && out[k].text@ == texts[k]
}

/// Value of an immediate operand, normalized to `u64`. Small positive lengths
/// are what matter, so sign-extended forms are fine (out-of-range values are
/// filtered by the length check).
fn imm_at(kind: OperandKind, imm: Immediates) -> (r: Option<u64>)
    ensures
        r == imm_value(kind, imm),
{
    match kind {
        OperandKind::Immediate8 => Some(imm.imm8 as u64),
        OperandKind::Immediate16 => Some(imm.imm16 as u64),
        OperandKind::Immediate32 => Some(imm.imm32 as u64),
        OperandKind::Immediate64 => Some(imm.imm64),
        OperandKind::Immediate8to16 => Some(imm.imm8to16 as u16 as u64),
        OperandKind::Immediate8to32 => Some(imm.imm8to32 as u32 as u64),
        OperandKind::Immediate8to64 => Some(imm.imm8to64 as u64),
        OperandKind::Immediate32to64 => Some(imm.imm32to64 as u64),
        _ => None,
    }
}

fn classify_len_src(insn: &X86Insn) -> (r: Option<LenSrc>)
    ensures
        r == len_src_of(*insn),
{
    match insn.class {
        InsnClass::Push => match imm_at(insn.op0, insn.immediates) {
            Some(imm) => Some(LenSrc::PushImm { imm }),
            None => None,
        },
        InsnClass::Pop => if insn.op0 == OperandKind::Register {
            Some(LenSrc::Pop { dest_full: insn.op0_full_register })
        } else {
            None
        },
        InsnClass::Mov => match insn.op0 {
            OperandKind::Register => match imm_at(insn.op1, insn.immediates) {
                Some(imm) => Some(LenSrc::RegImm { dest_full: insn.op0_full_register, imm }),
                None => None,
            },
            OperandKind::Memory => match imm_at(insn.op1, insn.immediates) {
                Some(imm) => Some(LenSrc::MemImm { imm }),
                None => None,
            },
            _ => None,
        },
        _ => None,
    }
}

fn reduce_insn(insn: &X86Insn, rodata: &Section) -> (d: Decoded)
    ensures
        reduces(d, *insn, rodata.vaddr, rodata.data@.len()),
{
    let lea_target = if insn.class == InsnClass::Lea && insn.rip_based && rodata.contains_vaddr(
        insn.displacement,
    ) {
        Some((insn.op0_full_register, insn.displacement))
    } else {
        None
    };
    let mut writes: Vec<u32> = Vec::new();
    let used = &insn.used_registers;
    let mut k: usize = 0;
    while k < used.len()
        invariant
            k <= used@.len(),
            writes@ == written_registers(used@.take(k as int)),
        decreases used@.len() - k,
    {
        assert(used@.take(k as int + 1).drop_last() =~= used@.take(k as int));
        let u = used[k];
        if u.access == RegAccess::Write || u.access == RegAccess::ReadWrite || u.access
            == RegAccess::CondWrite || u.access == RegAccess::ReadCondWrite {
            writes.push(u.full_register);
        }
        k += 1;
    }
    assert(used@.take(k as int) =~= used@);
    Decoded { lea_target, len_src: classify_len_src(insn), writes }
}

/// Decode `fn_bytes` (the function starting at `fn_start`) and reduce each
/// instruction to what the pairing scan needs.
pub fn decode_function(fn_bytes: &[u8], fn_start: u64, rodata: &Section) -> (r: Vec<Decoded>)
    requires
        fn_start + fn_bytes@.len() <= u64::MAX,
    ensures
        reduced_sweep(r@, fn_bytes@, fn_start, rodata.vaddr, rodata.data@.len()),
{
    let insns = decode_all(fn_bytes, fn_start);
    let mut out: Vec<Decoded> = Vec::new();
    let mut k: usize = 0;
    while k < insns.len()
        invariant
            k <= insns@.len(),
            out@.len() == k,
            forall|j: int| 0 <= j < k ==> reduces(#[trigger] out@[j], insns@[j], rodata.vaddr, rodata.data@.len()),
        decreases insns@.len() - k,
    {
        out.push(reduce_insn(&insns[k], rodata));
        k += 1;
    }
    assert(is_sweep(insns@, fn_bytes@, fn_start));
    out
}

/// The printable string `.rodata` holds at `[vaddr, vaddr + len)`, unless it
/// looks like a source path (panic-path strings are the other, confirming
/// factor, so the two never overlap).
fn try_extract_string(rodata: &Section, vaddr: u64, len: usize) -> (r: Option<String>)
    ensures
        r matches Some(s) ==> string_at(rodata.vaddr, rodata.data@, vaddr, len) == Some(s@),
        r is None ==> string_at(rodata.vaddr, rodata.data@, vaddr, len) is None,
{
    let bytes = match rodata.slice_at(vaddr, len) {
        Some(b) => b,
        None => return None,
    };
    let n = bytes.len();
    let mut i: usize = 0;
    while i < n
        invariant
            n == bytes@.len(),
            i <= n,
            section_slice(rodata.vaddr, rodata.data@, vaddr, len) == Some(bytes@),
            forall|k: int| 0 <= k < i ==> is_printable(#[trigger] bytes@[k]),
        decreases n - i,
    {
        if bytes[i] < 0x20 || bytes[i] > 0x7e {
            assert(!is_printable(bytes@[i as int]));
            return None;
        }
        i += 1;
    }
    if n >= 3 && bytes[n - 3] == 0x2e && bytes[n - 2] == 0x72 && bytes[n - 1] == 0x73 {
        assert(bytes@.subrange(n - 3, n as int) =~= seq![0x2eu8, 0x72u8, 0x73u8]);
        return None;
    }
    let mut i: usize = 0;
    while i < n && n - i >= 4
        invariant
            n == bytes@.len(),
            i <= n,
            section_slice(rodata.vaddr, rodata.data@, vaddr, len) == Some(bytes@),
            forall|k: int| 0 <= k < n ==> is_printable(#[trigger] bytes@[k]),
            forall|k: int| 0 <= k < i && k + 4 <= n ==> #[trigger] bytes@.subrange(k, k + 4) != seq![0x73u8, 0x72u8, 0x63u8, 0x2fu8],
        decreases n - i,
    {
        if bytes[i] == 0x73 && bytes[i + 1] == 0x72 && bytes[i + 2] == 0x63 && bytes[i + 3] == 0x2f {
            assert(bytes@.subrange(i as int, i + 4) =~= seq![0x73u8, 0x72u8, 0x63u8, 0x2fu8]);
            assert(looks_like_source_path(bytes@));
            return None;
        }
        proof {
            let w = bytes@.subrange(i as int, i + 4);
            if w == seq![0x73u8, 0x72u8, 0x63u8, 0x2fu8] {
                assert(w[0] == bytes@[i as int]);
                assert(w[1] == bytes@[i + 1]);
                assert(w[2] == bytes@[i + 2]);
                assert(w[3] == bytes@[i + 3]);
            }
        }
        i += 1;
    }
    proof {
        if n >= 3 {
            let w = bytes@.subrange(n - 3, n as int);
            if w == seq![0x2eu8, 0x72u8, 0x73u8] {
                assert(w[0] == bytes@[n - 3]);
                assert(w[1] == bytes@[n - 2]);
                assert(w[2] == bytes@[n - 1]);
            }
        }
    }
    let mut s = String::new();
    let mut i: usize = 0;
    while i < n
        invariant
            n == bytes@.len(),
            i <= n,
            s@ == bytes@.take(i as int).map_values(|x: u8| x as char),
        decreases n - i,
    {
        push_char(&mut s, bytes[i] as char);
        assert(bytes@.take(i as int + 1).map_values(|x: u8| x as char) =~= bytes@.take(i as int).map_values(
            |x: u8| x as char,
        ).push(bytes@[i as int] as char));
        i += 1;
    }
    assert(bytes@.take(n as int) =~= bytes@);
    Some(s)
}

fn writes_contains(writes: &Vec<u32>, reg: u32) -> (r: bool)
    ensures
        r == writes@.contains(reg),
{
    let mut k: usize = 0;
    while k < writes.len()
        invariant
            k <= writes@.len(),
            forall|j: int| 0 <= j < k ==> writes@[j] != reg,
        decreases writes@.len() - k,
    {
        if writes[k] == reg {
            return true;
        }
        k += 1;
    }
    false
}

/// Scan `ds[start..end]` for the length that pairs with the `lea` loading
/// `target` into `ptr`.
fn scan_window(ds: &Vec<Decoded>, ptr: u32, target: u64, start: usize, end: usize, rodata: &Section) -> (r: Option<String>)
    requires
        start <= end <= ds@.len(),
    ensures
        r matches Some(s) ==> scan_length(ds@, ptr, target, start as int, end as int, None, rodata.vaddr, rodata.data@) == Some(s@),
        r is None ==> scan_length(ds@, ptr, target, start as int, end as int, None, rodata.vaddr, rodata.data@) is None,
{
    let mut pending: Option<u64> = None;
    let mut j = start;
    while j < end
        invariant
            start <= j <= end <= ds@.len(),
            scan_length(ds@, ptr, target, start as int, end as int, None, rodata.vaddr, rodata.data@)
                == scan_length(ds@, ptr, target, j as int, end as int, pending, rodata.vaddr, rodata.data@),
        decreases end - j,
    {
        let w = &ds[j];
        // The pointer register is redefined: any length past this point
        // belongs to a different string.
        if writes_contains(&w.writes, ptr) {
            return None;
        }
        let mut candidate: Option<u64> = None;
        let mut pushed = false;
        match w.len_src {
            Some(LenSrc::RegImm { dest_full, imm }) => {
                if dest_full != ptr {
                    candidate = Some(imm);
                }
            },
            Some(LenSrc::MemImm { imm }) => {
                candidate = Some(imm);
            },
            Some(LenSrc::PushImm { imm }) => {
                pending = Some(imm);
                pushed = true;
            },
            Some(LenSrc::Pop { dest_full }) => {
                if let Some(v) = pending {
                    if dest_full != ptr {
                        candidate = Some(v);
                    }
                }
            },
            None => {},
        }
        if !pushed {
            // Only a `push` keeps a pending length alive.
            pending = None;
            if let Some(len) = candidate {
                let l = len as usize;
                if MIN_LEN <= l && l <= MAX_LEN {
                    if let Some(s) = try_extract_string(rodata, target, l) {
                        return Some(s);
                    }
                }
            }
        }
        j += 1;
    }
    None
}

/// Pair each `.rodata` `lea` in `ds` with the first length in its window that
/// carves out a kept string; every string found is tagged with `fn_start`.
pub fn pair_strings(ds: &Vec<Decoded>, rodata: &Section, fn_start: u64) -> (r: Vec<BehaviorString>)
    ensures
        tagged(r@, paired_strings(ds@, ds@.len() as int, rodata.vaddr, rodata.data@), fn_start),
{
    let n = ds.len();
    let mut out: Vec<BehaviorString> = Vec::new();
    let mut i: usize = 0;
    while i < n
        invariant
            n == ds@.len(),
            i <= n,
            tagged(out@, paired_strings(ds@, i as int, rodata.vaddr, rodata.data@), fn_start),
        decreases n - i,
    {
        if let Some((ptr, target)) = ds[i].lea_target {
            let end = if n - i - 1 > WINDOW {
                i + 1 + WINDOW
            } else {
                n
            };
            if let Some(s) = scan_window(ds, ptr, target, i + 1, end, rodata) {
                out.push(BehaviorString { fn_start, text: s });
            }
        }
        i += 1;
    }
    out
}

/// `r` holds the behavioral strings of the function `[fn_start, fn_end)` of
/// `.text`: the pairing of the reduction of its linear sweep, or nothing when
/// the range does not lie inside `.text`.
pub open spec fn behavior_strings_for(
    text_vaddr: u64,
    text: Seq<u8>,
    rodata_vaddr: u64,
    rodata: Seq<u8>,
    fn_start: u64,
    fn_end: u64,
    r: Seq<BehaviorString>,
) -> bool {
    match section_slice(text_vaddr, text, fn_start, (fn_end - fn_start) as usize) {
        None => r.len() == 0,
        Some(fn_bytes) => exists|ds: Seq<Decoded>|
            #[trigger] reduced_sweep(ds, fn_bytes, fn_start, rodata_vaddr, rodata.len()) && tagged(
                r,
                paired_strings(ds, ds.len() as int, rodata_vaddr, rodata),
                fn_start,
            ),
    }
}

/// Behavioral strings of the function at `[fn_start, fn_end)` of `.text`:
/// the pairing of the reduction of its linear sweep. Nothing when the range
/// does not lie inside `.text`.
pub fn extract_behavior_strings(text: &Section, rodata: &Section, fn_start: u64, fn_end: u64) -> (r: Vec<BehaviorString>)
    requires
        fn_start <= fn_end,
    ensures
        behavior_strings_for(text.vaddr, text.data@, rodata.vaddr, rodata.data@, fn_start, fn_end, r@),
{
    let span = fn_end - fn_start;
    let fn_bytes = match text.slice_at(fn_start, span as usize) {
        Some(b) => b,
        None => return Vec::new(),
    };
    assert(span as usize <= span) by (bit_vector);
    let decoded = decode_function(fn_bytes, fn_start, rodata);
    let found = pair_strings(&decoded, rodata, fn_start);
    assert(section_slice(text.vaddr, text.data@, fn_start, (fn_end - fn_start) as usize) matches Some(fb)
            ==> exists|ds: Seq<Decoded>|
            #[trigger] reduced_sweep(ds, fb, fn_start, rodata.vaddr, rodata.data@.len()) && tagged(
                found@,
                paired_strings(ds, ds.len() as int, rodata.vaddr, rodata.data@),
                fn_start,
            )) by {
        let fb = section_slice(text.vaddr, text.data@, fn_start, (fn_end - fn_start) as usize).unwrap();
        assert(fb =~= fn_bytes@);
        assert(reduced_sweep(decoded@, fb, fn_start, rodata.vaddr, rodata.data@.len()));
    }
    found
}


/// The characters of an ASCII byte run.
pub open spec fn ascii_text(b: Seq<u8>) -> Seq<char> {
    b.map_values(|x: u8| x as char)
}

/// `t` is the text of a printable-ASCII byte run of `MIN_LEN` to `MAX_LEN`
/// bytes that does not look like a source path.
pub open spec fn is_behavior_text(t: Seq<char>) -> bool {
    exists|b: Seq<u8>|
        {
            &&& MIN_LEN <= b.len() <= MAX_LEN
            &&& forall|i: int| 0 <= i < b.len() ==> is_printable(#[trigger] b[i])
            &&& !looks_like_source_path(b)
            &&& t == #[trigger] ascii_text(b)
        }
}

proof fn lemma_accepted_is_behavior_text(rodata_vaddr: u64, rodata: Seq<u8>, target: u64, len: u64, s: Seq<char>)
    requires
        accepted_string(rodata_vaddr, rodata, target, len) == Some(s),
    ensures
        is_behavior_text(s),
{
    let b = section_slice(rodata_vaddr, rodata, target, len as usize).unwrap();
    assert(ascii_text(b) == s);
}

proof fn lemma_scan_is_behavior_text(
    ds: Seq<Decoded>,
    ptr: u32,
    target: u64,
    j: int,
    end: int,
    pending: Option<u64>,
    rodata_vaddr: u64,
    rodata: Seq<u8>,
)
    requires
        scan_length(ds, ptr, target, j, end, pending, rodata_vaddr, rodata) is Some,
    ensures
        is_behavior_text(scan_length(ds, ptr, target, j, end, pending, rodata_vaddr, rodata).unwrap()),
    decreases end - j,
{
    if j < 0 || j >= end || j >= ds.len() || ds[j].writes@.contains(ptr) {
    } else {
        match ds[j].len_src {
            Some(LenSrc::PushImm { imm }) => {
                lemma_scan_is_behavior_text(ds, ptr, target, j + 1, end, Some(imm), rodata_vaddr, rodata);
            },
            src => {
                let candidate = match src {
                    Some(LenSrc::RegImm { dest_full, imm }) => if dest_full != ptr {
                        Some(imm)
                    } else {
                        None
                    },
                    Some(LenSrc::MemImm { imm }) => Some(imm),
                    Some(LenSrc::Pop { dest_full }) => if dest_full != ptr {
                        pending
                    } else {
                        None
                    },
                    _ => None,
                };
                match candidate {
                    Some(len) => match accepted_string(rodata_vaddr, rodata, target, len) {
                        Some(s) => {
                            lemma_accepted_is_behavior_text(rodata_vaddr, rodata, target, len, s);
                        },
                        None => {
                            lemma_scan_is_behavior_text(ds, ptr, target, j + 1, end, None, rodata_vaddr, rodata);
                        },
                    },
                    None => {
                        lemma_scan_is_behavior_text(ds, ptr, target, j + 1, end, None, rodata_vaddr, rodata);
                    },
                }
            },
        }
    }
}

proof fn lemma_paired_are_behavior_text(ds: Seq<Decoded>, m: int, rodata_vaddr: u64, rodata: Seq<u8>)
    ensures
        forall|k: int|
            0 <= k < paired_strings(ds, m, rodata_vaddr, rodata).len() ==> is_behavior_text(
                #[trigger] paired_strings(ds, m, rodata_vaddr, rodata)[k],
            ),
    decreases m,
{
    if m > 0 {
        let prev = paired_strings(ds, m - 1, rodata_vaddr, rodata);
        let cur = paired_strings(ds, m, rodata_vaddr, rodata);
        lemma_paired_are_behavior_text(ds, m - 1, rodata_vaddr, rodata);
        if let Some(s) = string_for_lea(ds, m - 1, rodata_vaddr, rodata) {
            let (ptr, target) = ds[m - 1].lea_target.unwrap();
            lemma_scan_is_behavior_text(
                ds,
                ptr,
                target,
                m,
                window_end(m - 1, ds.len() as int),
                None,
                rodata_vaddr,
                rodata,
            );
            assert(cur == prev.push(s));
        }
        assert forall|k: int| 0 <= k < cur.len() implies is_behavior_text(#[trigger] cur[k]) by {
            if k < prev.len() {
                assert(cur[k] == prev[k]);
            }
        }
    }
}

/// Every behavioral string of a function is tagged with that function and is
/// a printable-ASCII run of `MIN_LEN` to `MAX_LEN` bytes that does not look
/// like a source path, so it never overlaps the panic-path factor.
pub proof fn lemma_behavior_strings_are_clean(
    text_vaddr: u64,
    text: Seq<u8>,
    rodata_vaddr: u64,
    rodata: Seq<u8>,
    fn_start: u64,
    fn_end: u64,
    r: Seq<BehaviorString>,
)
    requires
        behavior_strings_for(text_vaddr, text, rodata_vaddr, rodata, fn_start, fn_end, r),
    ensures
        forall|k: int| 0 <= k < r.len() ==> (#[trigger] r[k]).fn_start == fn_start && is_behavior_text(r[k].text@),
{
    if let Some(fn_bytes) = section_slice(text_vaddr, text, fn_start, (fn_end - fn_start) as usize) {
        let ds = choose|ds: Seq<Decoded>|
            #[trigger] reduced_sweep(ds, fn_bytes, fn_start, rodata_vaddr, rodata.len()) && tagged(
                r,
                paired_strings(ds, ds.len() as int, rodata_vaddr, rodata),
                fn_start,
            );
        lemma_paired_are_behavior_text(ds, ds.len() as int, rodata_vaddr, rodata);
        assert forall|k: int| 0 <= k < r.len() implies (#[trigger] r[k]).fn_start == fn_start && is_behavior_text(
            r[k].text@,
        ) by {
            assert(r[k].text@ == paired_strings(ds, ds.len() as int, rodata_vaddr, rodata)[k]);
        }
    }
}

/// `a` and `b` agree on everything the pairing scan reads.
pub open spec fn same_reduction(a: Decoded, b: Decoded) -> bool {
    &&& a.lea_target == b.lea_target
    &&& a.len_src == b.len_src
    &&& a.writes@ == b.writes@
}

/// Two reductions of the sweep of the same bytes agree on everything the
/// pairing scan reads.
proof fn lemma_reduced_sweep_unique(
    d1: Seq<Decoded>,
    d2: Seq<Decoded>,
    bytes: Seq<u8>,
    ip: u64,
    rodata_vaddr: u64,
    rodata_len: nat,
)
    requires
        reduced_sweep(d1, bytes, ip, rodata_vaddr, rodata_len),
        reduced_sweep(d2, bytes, ip, rodata_vaddr, rodata_len),
    ensures
        d1.len() == d2.len(),
        forall|k: int| 0 <= k < d1.len() ==> same_reduction(#[trigger] d1[k], d2[k]),
{
    let i1 = choose|insns: Seq<X86Insn>|
        #[trigger] is_sweep(insns, bytes, ip) && insns.len() == d1.len() && forall|k: int|
            0 <= k < d1.len() ==> reduces(#[trigger] d1[k], insns[k], rodata_vaddr, rodata_len);
    let i2 = choose|insns: Seq<X86Insn>|
        #[trigger] is_sweep(insns, bytes, ip) && insns.len() == d2.len() && forall|k: int|
            0 <= k < d2.len() ==> reduces(#[trigger] d2[k], insns[k], rodata_vaddr, rodata_len);
    assert forall|k: int| 0 <= k < d1.len() implies same_reduction(#[trigger] d1[k], d2[k]) by {
        assert(reduces(d1[k], i1[k], rodata_vaddr, rodata_len));
        assert(reduces(d2[k], i2[k], rodata_vaddr, rodata_len));
        assert(i1[k].offset == i2[k].offset);
    }
}

proof fn lemma_scan_same(
    d1: Seq<Decoded>,
    d2: Seq<Decoded>,
    ptr: u32,
    target: u64,
    j: int,
    end: int,
    pending: Option<u64>,
    rodata_vaddr: u64,
    rodata: Seq<u8>,
)
    requires
        d1.len() == d2.len(),
        forall|k: int| 0 <= k < d1.len() ==> same_reduction(#[trigger] d1[k], d2[k]),
    ensures
        scan_length(d1, ptr, target, j, end, pending, rodata_vaddr, rodata) == scan_length(
            d2,
            ptr,
            target,
            j,
            end,
            pending,
            rodata_vaddr,
            rodata,
        ),
    decreases end - j,
{
    if j < 0 || j >= end || j >= d1.len() {
    } else {
        assert(same_reduction(d1[j], d2[j]));
        match d1[j].len_src {
            Some(LenSrc::PushImm { imm }) => {
                lemma_scan_same(d1, d2, ptr, target, j + 1, end, Some(imm), rodata_vaddr, rodata);
            },
            _ => {
                lemma_scan_same(d1, d2, ptr, target, j + 1, end, None, rodata_vaddr, rodata);
            },
        }
    }
}

proof fn lemma_paired_same(d1: Seq<Decoded>, d2: Seq<Decoded>, m: int, rodata_vaddr: u64, rodata: Seq<u8>)
    requires
        d1.len() == d2.len(),
        m <= d1.len(),
        forall|k: int| 0 <= k < d1.len() ==> same_reduction(#[trigger] d1[k], d2[k]),
    ensures
        paired_strings(d1, m, rodata_vaddr, rodata) == paired_strings(d2, m, rodata_vaddr, rodata),
    decreases m,
{
    if m > 0 {
        lemma_paired_same(d1, d2, m - 1, rodata_vaddr, rodata);
        assert(same_reduction(d1[m - 1], d2[m - 1]));
        if let Some((ptr, target)) = d1[m - 1].lea_target {
            lemma_scan_same(d1, d2, ptr, target, m, window_end(m - 1, d1.len() as int), None, rodata_vaddr, rodata);
        }
    }
}

/// The behavioral strings of a function depend only on the function's own
/// bytes (and on `.rodata`): two `.text` sections that hold the same bytes
/// over the function's range give the same strings, and a range outside
/// `.text` gives none.
pub proof fn lemma_behavior_strings_depend_on_slice(
    text_vaddr1: u64,
    text1: Seq<u8>,
    text_vaddr2: u64,
    text2: Seq<u8>,
    rodata_vaddr: u64,
    rodata: Seq<u8>,
    fn_start: u64,
    fn_end: u64,
    r1: Seq<BehaviorString>,
    r2: Seq<BehaviorString>,
)
    requires
        behavior_strings_for(text_vaddr1, text1, rodata_vaddr, rodata, fn_start, fn_end, r1),
        behavior_strings_for(text_vaddr2, text2, rodata_vaddr, rodata, fn_start, fn_end, r2),
        section_slice(text_vaddr1, text1, fn_start, (fn_end - fn_start) as usize) == section_slice(
            text_vaddr2,
            text2,
            fn_start,
            (fn_end - fn_start) as usize,
        ),
    ensures
        r1.len() == r2.len(),
        forall|k: int| 0 <= k < r1.len() ==> (#[trigger] r1[k]).fn_start == r2[k].fn_start && r1[k].text@ == r2[k].text@,
        section_slice(text_vaddr1, text1, fn_start, (fn_end - fn_start) as usize) is None ==> r1.len() == 0,
{
    if let Some(fn_bytes) = section_slice(text_vaddr1, text1, fn_start, (fn_end - fn_start) as usize) {
        let d1 = choose|ds: Seq<Decoded>|
            #[trigger] reduced_sweep(ds, fn_bytes, fn_start, rodata_vaddr, rodata.len()) && tagged(
                r1,
                paired_strings(ds, ds.len() as int, rodata_vaddr, rodata),
                fn_start,
            );
        let d2 = choose|ds: Seq<Decoded>|
            #[trigger] reduced_sweep(ds, fn_bytes, fn_start, rodata_vaddr, rodata.len()) && tagged(
                r2,
                paired_strings(ds, ds.len() as int, rodata_vaddr, rodata),
                fn_start,
            );
        lemma_reduced_sweep_unique(d1, d2, fn_bytes, fn_start, rodata_vaddr, rodata.len());
        lemma_paired_same(d1, d2, d1.len() as int, rodata_vaddr, rodata);
        let p = paired_strings(d1, d1.len() as int, rodata_vaddr, rodata);
        assert forall|k: int| 0 <= k < r1.len() implies (#[trigger] r1[k]).fn_start == r2[k].fn_start && r1[k].text@
            == r2[k].text@ by {
            assert(r1[k].text@ == p[k]);
            assert(r2[k].text@ == p[k]);
        }
    }
}


/// The length an instruction supplies for the string whose pointer is in
/// `ptr`: an immediate moved into another register or stored to memory.
pub open spec fn immediate_length(d: Decoded, ptr: u32) -> Option<u64> {
    match d.len_src {
        Some(LenSrc::RegImm { dest_full, imm }) => if dest_full != ptr {
            Some(imm)
        } else {
            None
        },
        Some(LenSrc::MemImm { imm }) => Some(imm),
        _ => None,
    }
}

/// `d` neither redefines `ptr`, nor starts a `push`/`pop` pair, nor supplies
/// a length that carves a kept string at `target`.
pub open spec fn passes_over(d: Decoded, ptr: u32, target: u64, rodata_vaddr: u64, rodata: Seq<u8>) -> bool {
    &&& !d.writes@.contains(ptr)
    &&& !(d.len_src matches Some(LenSrc::PushImm { .. }))
    &&& match immediate_length(d, ptr) {
        Some(len) => accepted_string(rodata_vaddr, rodata, target, len) is None,
        None => true,
    }
}

/// A rejected length does not end the scan: when every instruction in
/// `ds[j..jj]` passes over the pointer and `ds[jj]` supplies a length that
/// carves `s`, the scan from `j` finds `s`.
proof fn lemma_scan_reaches_carving(
    ds: Seq<Decoded>,
    ptr: u32,
    target: u64,
    j: int,
    jj: int,
    end: int,
    len: u64,
    rodata_vaddr: u64,
    rodata: Seq<u8>,
    s: Seq<char>,
)
    requires
        0 <= j <= jj < end,
        jj < ds.len(),
        forall|l: int| j <= l < jj ==> passes_over(#[trigger] ds[l], ptr, target, rodata_vaddr, rodata),
        !ds[jj].writes@.contains(ptr),
        immediate_length(ds[jj], ptr) == Some(len),
        accepted_string(rodata_vaddr, rodata, target, len) == Some(s),
    ensures
        scan_length(ds, ptr, target, j, end, None, rodata_vaddr, rodata) == Some(s),
    decreases jj - j,
{
    if j < jj {
        assert(passes_over(ds[j], ptr, target, rodata_vaddr, rodata));
        lemma_scan_reaches_carving(ds, ptr, target, j + 1, jj, end, len, rodata_vaddr, rodata, s);
    }
}

proof fn lemma_paired_contains(ds: Seq<Decoded>, i: int, m: int, rodata_vaddr: u64, rodata: Seq<u8>, s: Seq<char>)
    requires
        0 <= i < m,
        string_for_lea(ds, i, rodata_vaddr, rodata) == Some(s),
    ensures
        paired_strings(ds, m, rodata_vaddr, rodata).contains(s),
    decreases m,
{
    let cur = paired_strings(ds, m, rodata_vaddr, rodata);
    let prev = paired_strings(ds, m - 1, rodata_vaddr, rodata);
    if i == m - 1 {
        assert(cur == prev.push(s));
        assert(cur[prev.len() as int] == s);
    } else {
        lemma_paired_contains(ds, i, m - 1, rodata_vaddr, rodata, s);
        let k = choose|k: int| 0 <= k < prev.len() && prev[k] == s;
        if let Some(t) = string_for_lea(ds, m - 1, rodata_vaddr, rodata) {
            assert(cur == prev.push(t));
        }
        assert(cur[k] == s);
    }
}

/// After a `.rodata` `lea` loading `ptr` with `target`, the scan does not
/// give up at a length that carves no string: if, within the window and
/// before `ptr` is redefined, the first length supplied to another register
/// or to memory that carves a kept string carves `s`, the function's
/// behavioral strings include `s`.
pub proof fn lemma_first_carving_length_is_found(
    text_vaddr: u64,
    text: Seq<u8>,
    rodata_vaddr: u64,
    rodata: Seq<u8>,
    fn_start: u64,
    fn_end: u64,
    r: Seq<BehaviorString>,
    ds: Seq<Decoded>,
    i: int,
    jj: int,
    len: u64,
    s: Seq<char>,
)
    requires
        behavior_strings_for(text_vaddr, text, rodata_vaddr, rodata, fn_start, fn_end, r),
        section_slice(text_vaddr, text, fn_start, (fn_end - fn_start) as usize) matches Some(fb) && reduced_sweep(
            ds,
            fb,
            fn_start,
            rodata_vaddr,
            rodata.len(),
        ),
        0 <= i < jj < ds.len(),
        jj <= i + WINDOW,
        ds[i].lea_target matches Some((ptr, target)) && {
            &&& forall|l: int| i < l < jj ==> passes_over(#[trigger] ds[l], ptr, target, rodata_vaddr, rodata)
            &&& !ds[jj].writes@.contains(ptr)
            &&& immediate_length(ds[jj], ptr) == Some(len)
            &&& accepted_string(rodata_vaddr, rodata, target, len) == Some(s)
        },
    ensures
        exists|k: int| 0 <= k < r.len() && (#[trigger] r[k]).text@ == s && r[k].fn_start == fn_start,
{
    let fb = section_slice(text_vaddr, text, fn_start, (fn_end - fn_start) as usize).unwrap();
    let (ptr, target) = ds[i].lea_target.unwrap();
    lemma_scan_reaches_carving(ds, ptr, target, i + 1, jj, window_end(i, ds.len() as int), len, rodata_vaddr, rodata, s);
    lemma_paired_contains(ds, i, ds.len() as int, rodata_vaddr, rodata, s);
    let d0 = choose|d: Seq<Decoded>|
        #[trigger] reduced_sweep(d, fb, fn_start, rodata_vaddr, rodata.len()) && tagged(
            r,
            paired_strings(d, d.len() as int, rodata_vaddr, rodata),
            fn_start,
        );
    lemma_reduced_sweep_unique(ds, d0, fb, fn_start, rodata_vaddr, rodata.len());
    lemma_paired_same(ds, d0, ds.len() as int, rodata_vaddr, rodata);
    let p = paired_strings(ds, ds.len() as int, rodata_vaddr, rodata);
    let k = choose|k: int| 0 <= k < p.len() && p[k] == s;
    assert(r[k].text@ == s);
}

} // verus!
