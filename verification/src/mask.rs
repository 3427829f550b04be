//! Per-function masked hex: the Tier 1 code factor. Only provably volatile
//! bytes are masked, everything else stays exact:
//!   1. RIP-relative displacements,
//!   2. 64-bit absolute immediates (`movabs`),
//!   3. near-branch displacements (`call`/`jmp`/`jcc`, rel8 or rel32), whose
//!      target shifts across recompiles, and
//!   4. any range a real `R_X86_64_RELATIVE` relocation patches.
//! Ordinary stack displacements and small (non-branch) immediates stay exact.
use vstd::prelude::*;

use crate::elfview::{section_slice, RelaRelative, Section};
use crate::x86::{decode_all, is_near_branch_kind, is_sweep, OperandKind, X86Insn};

verus! {

/// One byte of a masked-hex atom: an exact value, or a wildcard.
#[derive(Debug, Clone, Copy, PartialEq, Eq, Structural)]
pub enum MaskByte {
    Exact(u8),
    Wildcard,
}

/// Number of wildcard bytes in `s`.
pub open spec fn num_wildcards(s: Seq<MaskByte>) -> nat
    decreases s.len(),
{
    if s.len() == 0 {
        0
    } else {
        num_wildcards(s.drop_last()) + (if s.last() is Wildcard { 1nat } else { 0nat })
    }
}

/// Number of exact (non-wildcard) bytes in `s`.
pub open spec fn num_exact(s: Seq<MaskByte>) -> nat
    decreases s.len(),
{
    if s.len() == 0 {
        0
    } else {
        num_exact(s.drop_last()) + (if s.last() is Exact { 1nat } else { 0nat })
    }
}

/// Every byte counts as either exact or wildcard.
pub proof fn lemma_exact_plus_wildcards(s: Seq<MaskByte>)
    ensures
        num_exact(s) + num_wildcards(s) == s.len(),
    decreases s.len(),
{
    if s.len() > 0 {
        lemma_exact_plus_wildcards(s.drop_last());
    }
}

#[derive(Debug, Clone)]
pub struct MaskedAtom {
    pub fn_start: u64,
    pub bytes: Vec<MaskByte>,
}

impl MaskedAtom {
    pub fn wildcard_count(&self) -> (n: usize)
        ensures
            n == num_wildcards(self.bytes@),
    {
        let mut n: usize = 0;
        let mut i: usize = 0;
        while i < self.bytes.len()
            invariant
                i <= self.bytes@.len(),
                n == num_wildcards(self.bytes@.take(i as int)),
                n <= i,
            decreases self.bytes@.len() - i,
        {
            assert(self.bytes@.take(i as int + 1).drop_last() =~= self.bytes@.take(i as int));
            if self.bytes[i] == MaskByte::Wildcard {
                n = n + 1;
            }
            i = i + 1;
        }
        assert(self.bytes@.take(i as int) =~= self.bytes@);
        n
    }
}

/// `p` lies in `[start, start + size)`.
pub open spec fn in_range(p: int, start: int, size: int) -> bool {
    start <= p < start + size
}

/// Position `p` of the function falls in a volatile field of `insn`: a
/// RIP-relative displacement, a 64-bit immediate, or a near-branch target.
pub open spec fn insn_masks(insn: X86Insn, p: int) -> bool {
    let o = insn.offset as int;
    let c = insn.offsets;
    ||| c.displacement_size != 0 && insn.rip_based && in_range(
        p,
        o + c.displacement_offset,
        c.displacement_size as int,
    )
    ||| c.immediate_size != 0 && (c.immediate_size == 8 || is_near_branch_kind(insn.op0))
        && in_range(p, o + c.immediate_offset, c.immediate_size as int)
}

/// Some instruction among `insns[0..m]` masks position `p`.
pub open spec fn masked_by_insns(insns: Seq<X86Insn>, m: int, p: int) -> bool {
    exists|k: int| 0 <= k < m && insn_masks(#[trigger] insns[k], p)
}

/// Some relocation among `rela[0..m]` patches position `p` of the function
/// `[fn_start, fn_end)`.
pub open spec fn masked_by_rela(rela: Seq<RelaRelative>, m: int, fn_start: u64, fn_end: u64, p: int) -> bool {
    exists|j: int|
        0 <= j < m && fn_start <= (#[trigger] rela[j]).offset < fn_end && in_range(
            p,
            ((rela[j].offset - fn_start) as u64) as usize as int,
            8,
        )
}

/// The masked atom's byte at `p`.
pub open spec fn masked_byte(insns: Seq<X86Insn>, rela: Seq<RelaRelative>, fn_start: u64, fn_end: u64, bytes: Seq<u8>, p: int) -> MaskByte {
    if masked_by_insns(insns, insns.len() as int, p) || masked_by_rela(rela, rela.len() as int, fn_start, fn_end, p) {
        MaskByte::Wildcard
    } else {
        MaskByte::Exact(bytes[p])
    }
}

/// `r` is the masked atom of the function `[fn_start, fn_end)` of `.text`:
/// each byte wildcarded where an instruction of its linear sweep or a
/// relocation makes it volatile, exact otherwise; `None` when the range does
/// not lie inside `.text`.
pub open spec fn masked_atom_for(
    text_vaddr: u64,
    text: Seq<u8>,
    rela: Seq<RelaRelative>,
    fn_start: u64,
    fn_end: u64,
    r: Option<MaskedAtom>,
) -> bool {
    match section_slice(text_vaddr, text, fn_start, (fn_end - fn_start) as usize) {
        None => r is None,
        Some(fn_bytes) => r matches Some(atom) && {
            &&& atom.fn_start == fn_start
            &&& atom.bytes@.len() == fn_bytes.len()
            &&& exists|insns: Seq<X86Insn>|
                #[trigger] is_sweep(insns, fn_bytes, fn_start) && forall|p: int|
                    0 <= p < fn_bytes.len() ==> #[trigger] atom.bytes@[p] == masked_byte(insns, rela, fn_start, fn_end, fn_bytes, p)
        },
    }
}

/// A direct near branch (`call`/`jmp`/`jcc`), whose sole operand is a
/// self-relative target. Indirect branches carry no immediate to mask.
pub fn is_near_branch(insn: &X86Insn) -> (r: bool)
    ensures
        r == is_near_branch_kind(insn.op0),
{
    match insn.op0 {
        OperandKind::NearBranch16 | OperandKind::NearBranch32 | OperandKind::NearBranch64 => true,
        _ => false,
    }
}

/// Wildcard `out[instr_start + rel_off .. + size]`, clamped to `out`.
fn mask_range(out: &mut Vec<MaskByte>, instr_start: usize, rel_off: usize, size: usize)
    ensures
        final(out)@.len() == old(out)@.len(),
        forall|p: int| 0 <= p < old(out)@.len() ==> #[trigger] final(out)@[p] == if in_range(p, instr_start + rel_off, size as int) {
            MaskByte::Wildcard
        } else {
            old(out)@[p]
        },
{
    let len = out.len();
    let a = instr_start.saturating_add(rel_off);
    let start = if a < len { a } else { len };
    let b = start.saturating_add(size);
    let end = if b < len { b } else { len };
    let mut i = start;
    while i < end
        invariant
            start <= i <= end <= len,
            out@.len() == len,
            len == old(out)@.len(),
            start == (if a < len { a } else { len }),
            end == (if b < len { b } else { len }),
            b == (if start + size > usize::MAX { usize::MAX as int } else { start + size }),
            a == (if instr_start + rel_off > usize::MAX { usize::MAX as int } else { instr_start + rel_off }),
            forall|p: int| 0 <= p < len ==> #[trigger] out@[p] == if start <= p < i {
                MaskByte::Wildcard
            } else {
                old(out)@[p]
            },
        decreases end - i,
    {
        out.set(i, MaskByte::Wildcard);
        i += 1;
    }
}

/// Build one masked-hex atom covering the whole `[fn_start, fn_end)` range of
/// `.text`; `None` when the range does not lie inside `.text`.
pub fn mask_function(text: &Section, rela: &[RelaRelative], fn_start: u64, fn_end: u64) -> (r: Option<MaskedAtom>)
    requires
        fn_start <= fn_end,
    ensures
        masked_atom_for(text.vaddr, text.data@, rela@, fn_start, fn_end, r),
{
    let span = fn_end - fn_start;
    let fn_bytes = match text.slice_at(fn_start, span as usize) {
        Some(b) => b,
        None => return None,
    };
    assert(span as usize <= span) by (bit_vector);
    let n = fn_bytes.len();
    let mut out: Vec<MaskByte> = Vec::new();
    let mut i: usize = 0;
    while i < n
        invariant
            n == fn_bytes@.len(),
            i <= n,
            out@.len() == i,
            forall|p: int| 0 <= p < i ==> #[trigger] out@[p] == MaskByte::Exact(fn_bytes@[p]),
        decreases n - i,
    {
        out.push(MaskByte::Exact(fn_bytes[i]));
        i += 1;
    }
    let insns = decode_all(fn_bytes, fn_start);
    let mut k: usize = 0;
    while k < insns.len()
        invariant
            n == fn_bytes@.len(),
            fn_start + n <= fn_end,
            is_sweep(insns@, fn_bytes@, fn_start),
            k <= insns@.len(),
            out@.len() == n,
            forall|p: int| 0 <= p < n ==> #[trigger] out@[p] == if masked_by_insns(insns@, k as int, p) {
                MaskByte::Wildcard
            } else {
                MaskByte::Exact(fn_bytes@[p])
            },
        decreases insns@.len() - k,
    {
        let insn = &insns[k];
        let start = insn.offset;
        let c = insn.offsets;
        // 1. RIP-relative displacement.
        if c.displacement_size != 0 && insn.rip_based {
            mask_range(&mut out, start, c.displacement_offset, c.displacement_size);
        }
        // 2. 64-bit absolute immediate.
        if c.immediate_size != 0 && c.immediate_size == 8 {
            mask_range(&mut out, start, c.immediate_offset, c.immediate_size);
        }
        // 3. Near-branch target.
        if c.immediate_size != 0 && is_near_branch(insn) {
            mask_range(&mut out, start, c.immediate_offset, c.immediate_size);
        }
        proof {
            assert forall|p: int| 0 <= p < n implies #[trigger] out@[p] == if masked_by_insns(insns@, k + 1, p) {
                MaskByte::Wildcard
            } else {
                MaskByte::Exact(fn_bytes@[p])
            } by {
                if insn_masks(insns@[k as int], p) {
                    assert(masked_by_insns(insns@, k + 1, p));
                } else if masked_by_insns(insns@, k + 1, p) {
                    let w = choose|w: int| 0 <= w < k + 1 && insn_masks(#[trigger] insns@[w], p);
                    assert(masked_by_insns(insns@, k as int, p));
                }
                if masked_by_insns(insns@, k as int, p) {
                    let w = choose|w: int| 0 <= w < k && insn_masks(#[trigger] insns@[w], p);
                    assert(masked_by_insns(insns@, k + 1, p));
                }
            }
        }
        k += 1;
    }
    // 4. Any range a real relocation patches (8 bytes each), applied over the
    //    function's byte range independently of the instruction sweep.
    let out_len = out.len();
    let mut j: usize = 0;
    while j < rela.len()
        invariant
            n == fn_bytes@.len(),
            out@.len() == n,
            out_len == n,
            j <= rela@.len(),
            forall|p: int| 0 <= p < n ==> #[trigger] out@[p] == if masked_by_insns(insns@, insns@.len() as int, p)
                || masked_by_rela(rela@, j as int, fn_start, fn_end, p) {
                MaskByte::Wildcard
            } else {
                MaskByte::Exact(fn_bytes@[p])
            },
        decreases rela@.len() - j,
    {
        let r = rela[j];
        if r.offset >= fn_start && r.offset < fn_end {
            let off = (r.offset - fn_start) as usize;
            let avail = if off < out_len {
                out_len - off
            } else {
                0
            };
            let size = if avail < 8 {
                avail
            } else {
                8
            };
            mask_range(&mut out, off, 0, size);
        }
        proof {
            assert forall|p: int| 0 <= p < n implies #[trigger] out@[p] == if masked_by_insns(insns@, insns@.len() as int, p)
                || masked_by_rela(rela@, j + 1, fn_start, fn_end, p) {
                MaskByte::Wildcard
            } else {
                MaskByte::Exact(fn_bytes@[p])
            } by {
                if masked_by_rela(rela@, j + 1, fn_start, fn_end, p) && !masked_by_rela(rela@, j as int, fn_start, fn_end, p) {
                    let w = choose|w: int|
                        0 <= w < j + 1 && fn_start <= (#[trigger] rela@[w]).offset < fn_end && in_range(
                            p,
                            ((rela@[w].offset - fn_start) as u64) as usize as int,
                            8,
                        );
                    assert(w == j);
                }
                if masked_by_rela(rela@, j as int, fn_start, fn_end, p) {
                    let w = choose|w: int|
                        0 <= w < j && fn_start <= (#[trigger] rela@[w]).offset < fn_end && in_range(
                            p,
                            ((rela@[w].offset - fn_start) as u64) as usize as int,
                            8,
                        );
                    assert(masked_by_rela(rela@, j + 1, fn_start, fn_end, p));
                }
                if r.offset >= fn_start && r.offset < fn_end && in_range(
                    p,
                    ((r.offset - fn_start) as u64) as usize as int,
                    8,
                ) {
                    assert(masked_by_rela(rela@, j + 1, fn_start, fn_end, p));
                }
            }
        }
        j += 1;
    }
    proof {
        let fb = section_slice(text.vaddr, text.data@, fn_start, (fn_end - fn_start) as usize).unwrap();
        assert(fb =~= fn_bytes@);
        assert(is_sweep(insns@, fb, fn_start));
    }
    Some(MaskedAtom { fn_start, bytes: out })
}


/// Masking never changes a byte, it only wildcards it: every byte of a
/// function's masked atom is a wildcard or the function's own byte at that
/// position, and every byte that a relative relocation patches inside the
/// function is a wildcard, however many instructions the patched range spans.
pub proof fn lemma_masking_only_wildcards(
    text_vaddr: u64,
    text: Seq<u8>,
    rela: Seq<RelaRelative>,
    fn_start: u64,
    fn_end: u64,
    atom: MaskedAtom,
)
    requires
        masked_atom_for(text_vaddr, text, rela, fn_start, fn_end, Some(atom)),
    ensures
        section_slice(text_vaddr, text, fn_start, (fn_end - fn_start) as usize) matches Some(fn_bytes) && {
            &&& atom.bytes@.len() == fn_bytes.len()
            &&& forall|p: int|
                0 <= p < fn_bytes.len() ==> #[trigger] atom.bytes@[p] == MaskByte::Wildcard || atom.bytes@[p]
                    == MaskByte::Exact(fn_bytes[p])
            &&& forall|j: int, p: int|
                0 <= j < rela.len() && fn_start <= (#[trigger] rela[j]).offset < fn_end && 0 <= p < fn_bytes.len()
                    && in_range(p, ((rela[j].offset - fn_start) as u64) as usize as int, 8) ==> #[trigger] atom.bytes@[p]
                    == MaskByte::Wildcard
        },
{
    let fn_bytes = section_slice(text_vaddr, text, fn_start, (fn_end - fn_start) as usize).unwrap();
    let insns = choose|insns: Seq<X86Insn>|
        #[trigger] is_sweep(insns, fn_bytes, fn_start) && forall|p: int|
            0 <= p < fn_bytes.len() ==> #[trigger] atom.bytes@[p] == masked_byte(insns, rela, fn_start, fn_end, fn_bytes, p);
    assert forall|j: int, p: int|
        0 <= j < rela.len() && fn_start <= (#[trigger] rela[j]).offset < fn_end && 0 <= p < fn_bytes.len() && in_range(
            p,
            ((rela[j].offset - fn_start) as u64) as usize as int,
            8,
        ) implies #[trigger] atom.bytes@[p] == MaskByte::Wildcard by {
        assert(masked_by_rela(rela, rela.len() as int, fn_start, fn_end, p));
        assert(atom.bytes@[p] == masked_byte(insns, rela, fn_start, fn_end, fn_bytes, p));
    }
}

} // verus!
