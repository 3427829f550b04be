//! Boundary-free code signal: short, exact byte windows anchored on each
//! direct near call inside a function, with no masking.
use vstd::prelude::*;

use crate::elfview::{section_slice, Section};
use crate::mask::is_near_branch;
use crate::x86::{decode_all, is_near_branch_kind, is_sweep, lemma_sweep_insn, InsnClass, X86Insn};

verus! {

/// Bytes of context taken before each call.
pub const CTX_BEFORE: u64 = 6;

/// Shortest window worth keeping.
pub const MIN_ATOM_LEN: usize = 8;

/// Most call-site windows taken per function.
pub const MAX_ATOMS_PER_FN: usize = 3;

/// Window taken from the entry of a function without direct calls.
pub const ENTRY_WINDOW: u64 = 24;

/// An exact byte window from a function.
#[derive(Debug, Clone)]
pub struct CodeAtom {
    pub fn_start: u64,
    pub bytes: Vec<u8>,
}

/// The call-site window of `insn`, if it is a direct near call whose window
/// (up to `CTX_BEFORE` bytes before it, never before `fn_start`, through its
/// end) lies in `.text` and is long enough.
pub open spec fn call_window(insn: X86Insn, text_vaddr: u64, text: Seq<u8>, fn_start: u64) -> Option<Seq<u8>> {
    if insn.class == InsnClass::Call && is_near_branch_kind(insn.op0) {
        let back = if insn.ip >= CTX_BEFORE { (insn.ip - CTX_BEFORE) as u64 } else { 0u64 };
        let ctx_start = if back >= fn_start { back } else { fn_start };
        let snippet_end = insn.ip + insn.len;
        match section_slice(text_vaddr, text, ctx_start, (snippet_end - ctx_start) as usize) {
            Some(b) => if b.len() >= MIN_ATOM_LEN { Some(b) } else { None },
            None => None,
        }
    } else {
        None
    }
}

/// Call-site windows of `insns[0..m]`, at most `MAX_ATOMS_PER_FN`.
pub open spec fn call_windows(insns: Seq<X86Insn>, m: int, text_vaddr: u64, text: Seq<u8>, fn_start: u64) -> Seq<Seq<u8>>
    decreases m,
{
    if m <= 0 {
        Seq::empty()
    } else {
        let prev = call_windows(insns, m - 1, text_vaddr, text, fn_start);
        if prev.len() >= MAX_ATOMS_PER_FN {
            prev
        } else {
            match call_window(insns[m - 1], text_vaddr, text, fn_start) {
                Some(b) => prev.push(b),
                None => prev,
            }
        }
    }
}

/// The entry window of the function `[fn_start, fn_end)`, if long enough.
pub open spec fn entry_window(text_vaddr: u64, text: Seq<u8>, fn_start: u64, fn_end: u64) -> Seq<Seq<u8>> {
    let span = fn_end - fn_start;
    let win = if span < ENTRY_WINDOW { span } else { ENTRY_WINDOW as int };
    match section_slice(text_vaddr, text, fn_start, win as usize) {
        Some(b) => if b.len() >= MIN_ATOM_LEN { seq![b] } else { Seq::empty() },
        None => Seq::empty(),
    }
}

/// The atoms of a function: its call-site windows, or else its entry window.
pub open spec fn code_atoms_of(insns: Seq<X86Insn>, text_vaddr: u64, text: Seq<u8>, fn_start: u64, fn_end: u64) -> Seq<Seq<u8>> {
    let calls = call_windows(insns, insns.len() as int, text_vaddr, text, fn_start);
    if calls.len() == 0 {
        entry_window(text_vaddr, text, fn_start, fn_end)
    } else {
        calls
    }
}

/// Once `MAX_ATOMS_PER_FN` windows are taken, later instructions add none.
proof fn lemma_call_windows_saturated(insns: Seq<X86Insn>, k: int, m: int, text_vaddr: u64, text: Seq<u8>, fn_start: u64)
    requires
        0 <= k <= m,
        call_windows(insns, k, text_vaddr, text, fn_start).len() >= MAX_ATOMS_PER_FN,
    ensures
        call_windows(insns, m, text_vaddr, text, fn_start) == call_windows(insns, k, text_vaddr, text, fn_start),
    decreases m - k,
{
    if m > k {
        lemma_call_windows_saturated(insns, k, m - 1, text_vaddr, text, fn_start);
    }
}

/// `out` holds `windows`, each tagged with `fn_start`.
pub open spec fn atoms_hold(out: Seq<CodeAtom>, windows: Seq<Seq<u8>>, fn_start: u64) -> bool {
    &&& out.len() == windows.len()
    &&& forall|k: int| 0 <= k < out.len() ==> (#[trigger] out[k]).fn_start == fn_start && out[k].bytes@ == windows[k]
}

/// `r` holds the atoms of the function `[fn_start, fn_end)` of `.text` (based
/// at `text_vaddr`, holding `text`): the atoms of its linear sweep, or nothing
/// when the range does not lie inside `.text`.
pub open spec fn code_atoms_for(text_vaddr: u64, text: Seq<u8>, fn_start: u64, fn_end: u64, r: Seq<CodeAtom>) -> bool {
    match section_slice(text_vaddr, text, fn_start, (fn_end - fn_start) as usize) {
        None => r.len() == 0,
        Some(fn_bytes) => exists|insns: Seq<X86Insn>|
            #[trigger] is_sweep(insns, fn_bytes, fn_start) && atoms_hold(
                r,
                code_atoms_of(insns, text_vaddr, text, fn_start, fn_end),
                fn_start,
            ),
    }
}

/// Up to `MAX_ATOMS_PER_FN` call-site byte windows from the function at
/// `[fn_start, fn_end)` of `.text`; a function with none falls back to a
/// window from its entry. Nothing when the range does not lie inside `.text`.
pub fn extract_code_atoms(text: &Section, fn_start: u64, fn_end: u64) -> (r: Vec<CodeAtom>)
    requires
        fn_start <= fn_end,
    ensures
        code_atoms_for(text.vaddr, text.data@, fn_start, fn_end, r@),
        forall|k: int| 0 <= k < r@.len() ==> slice_of_function(text.vaddr, text.data@, fn_start, fn_end, (#[trigger] r@[k]).bytes@),
{
    let span = fn_end - fn_start;
    let fn_bytes = match text.slice_at(fn_start, span as usize) {
        Some(b) => b,
        None => return Vec::new(),
    };
    assert(span as usize <= span) by (bit_vector);
    let insns = decode_all(fn_bytes, fn_start);
    let mut atoms: Vec<CodeAtom> = Vec::new();
    let mut k: usize = 0;
    while k < insns.len()
        invariant
            fn_start <= fn_end,
            fn_start + fn_bytes@.len() <= fn_end,
            is_sweep(insns@, fn_bytes@, fn_start),
            k <= insns@.len(),
            atoms_hold(atoms@, call_windows(insns@, k as int, text.vaddr, text.data@, fn_start), fn_start),
        ensures
            k <= insns@.len(),
            atoms_hold(atoms@, call_windows(insns@, k as int, text.vaddr, text.data@, fn_start), fn_start),
            k < insns@.len() ==> atoms@.len() >= MAX_ATOMS_PER_FN,
        decreases insns@.len() - k,
    {
        if atoms.len() >= MAX_ATOMS_PER_FN {
            break;
        }
        let insn = &insns[k];
        proof {
            lemma_sweep_insn(insns@, fn_bytes@, fn_start, k as int);
        }
        if insn.class == InsnClass::Call && is_near_branch(insn) {
            let back = insn.ip.saturating_sub(CTX_BEFORE);
            let ctx_start = if back >= fn_start {
                back
            } else {
                fn_start
            };
            let snippet_end = insn.ip + insn.len as u64;
            if let Some(snippet) = text.slice_at(ctx_start, (snippet_end - ctx_start) as usize) {
                if snippet.len() >= MIN_ATOM_LEN {
                    atoms.push(CodeAtom { fn_start, bytes: vstd::slice::slice_to_vec(snippet) });
                }
            }
        }
        k += 1;
    }
    proof {
        if k < insns@.len() {
            lemma_call_windows_saturated(insns@, k as int, insns@.len() as int, text.vaddr, text.data@, fn_start);
        }
    }
    if atoms.len() == 0 {
        let win = if span < ENTRY_WINDOW {
            span
        } else {
            ENTRY_WINDOW
        };
        if let Some(snippet) = text.slice_at(fn_start, win as usize) {
            if snippet.len() >= MIN_ATOM_LEN {
                atoms.push(CodeAtom { fn_start, bytes: vstd::slice::slice_to_vec(snippet) });
            }
        }
    }
    proof {
        let fb = section_slice(text.vaddr, text.data@, fn_start, (fn_end - fn_start) as usize).unwrap();
        assert(fb =~= fn_bytes@);
        assert(is_sweep(insns@, fb, fn_start));
        lemma_code_atoms_inside_function(text.vaddr, text.data@, fn_start, fn_end, atoms@);
    }
    atoms
}


proof fn lemma_call_windows_shape(insns: Seq<X86Insn>, m: int, text_vaddr: u64, text: Seq<u8>, fn_start: u64)
    ensures
        call_windows(insns, m, text_vaddr, text, fn_start).len() <= MAX_ATOMS_PER_FN,
        forall|k: int|
            0 <= k < call_windows(insns, m, text_vaddr, text, fn_start).len() ==> (#[trigger] call_windows(
                insns,
                m,
                text_vaddr,
                text,
                fn_start,
            )[k]).len() >= MIN_ATOM_LEN,
    decreases m,
{
    if m > 0 {
        let prev = call_windows(insns, m - 1, text_vaddr, text, fn_start);
        let cur = call_windows(insns, m, text_vaddr, text, fn_start);
        lemma_call_windows_shape(insns, m - 1, text_vaddr, text, fn_start);
        assert forall|k: int| 0 <= k < cur.len() implies (#[trigger] cur[k]).len() >= MIN_ATOM_LEN by {
            if k < prev.len() {
                assert(cur[k] == prev[k]);
            }
        }
    }
}

/// A function yields at most `MAX_ATOMS_PER_FN` code atoms, each tagged with
/// the function and at least `MIN_ATOM_LEN` bytes long.
pub proof fn lemma_code_atoms_bounded(text_vaddr: u64, text: Seq<u8>, fn_start: u64, fn_end: u64, r: Seq<CodeAtom>)
    requires
        code_atoms_for(text_vaddr, text, fn_start, fn_end, r),
    ensures
        r.len() <= MAX_ATOMS_PER_FN,
        forall|k: int| 0 <= k < r.len() ==> (#[trigger] r[k]).fn_start == fn_start && r[k].bytes@.len() >= MIN_ATOM_LEN,
{
    if let Some(fn_bytes) = section_slice(text_vaddr, text, fn_start, (fn_end - fn_start) as usize) {
        let insns = choose|insns: Seq<X86Insn>|
            #[trigger] is_sweep(insns, fn_bytes, fn_start) && atoms_hold(
                r,
                code_atoms_of(insns, text_vaddr, text, fn_start, fn_end),
                fn_start,
            );
        lemma_call_windows_shape(insns, insns.len() as int, text_vaddr, text, fn_start);
        let w = code_atoms_of(insns, text_vaddr, text, fn_start, fn_end);
        assert forall|k: int| 0 <= k < r.len() implies (#[trigger] r[k]).fn_start == fn_start && r[k].bytes@.len()
            >= MIN_ATOM_LEN by {
            assert(r[k].bytes@ == w[k]);
        }
    }
}

/// `b` is the bytes of `.text` at some `[o, o + len)` inside the function
/// `[fn_start, fn_end)`.
pub open spec fn slice_of_function(text_vaddr: u64, text: Seq<u8>, fn_start: u64, fn_end: u64, b: Seq<u8>) -> bool {
    exists|o: u64, l: usize|
        fn_start <= o && o + l <= fn_end && l == b.len() && #[trigger] section_slice(text_vaddr, text, o, l) == Some(b)
}

proof fn lemma_call_window_in_function(
    insn: X86Insn,
    text_vaddr: u64,
    text: Seq<u8>,
    fn_start: u64,
    fn_end: u64,
    fn_bytes: Seq<u8>,
    b: Seq<u8>,
)
    requires
        fn_start <= fn_end,
        fn_start + fn_bytes.len() <= fn_end,
        fn_bytes.len() <= usize::MAX,
        insn.ip == fn_start + insn.offset,
        insn.offset + insn.len <= fn_bytes.len(),
        call_window(insn, text_vaddr, text, fn_start) == Some(b),
    ensures
        slice_of_function(text_vaddr, text, fn_start, fn_end, b),
{
    let back = if insn.ip >= CTX_BEFORE { (insn.ip - CTX_BEFORE) as u64 } else { 0u64 };
    let ctx_start = if back >= fn_start { back } else { fn_start };
    let snippet_end = insn.ip + insn.len;
    let l = (snippet_end - ctx_start) as usize;
    assert(snippet_end - ctx_start <= fn_bytes.len());
    assert(l == snippet_end - ctx_start);
    assert(section_slice(text_vaddr, text, ctx_start, l) == Some(b));
    assert(b.len() == l);
}

proof fn lemma_call_windows_in_function(
    insns: Seq<X86Insn>,
    m: int,
    text_vaddr: u64,
    text: Seq<u8>,
    fn_start: u64,
    fn_end: u64,
    fn_bytes: Seq<u8>,
)
    requires
        fn_start <= fn_end,
        fn_start + fn_bytes.len() <= fn_end,
        fn_bytes.len() <= usize::MAX,
        m <= insns.len(),
        forall|k: int|
            0 <= k < insns.len() ==> (#[trigger] insns[k]).ip == fn_start + insns[k].offset && insns[k].offset
                + insns[k].len <= fn_bytes.len(),
    ensures
        forall|k: int|
            0 <= k < call_windows(insns, m, text_vaddr, text, fn_start).len() ==> slice_of_function(
                text_vaddr,
                text,
                fn_start,
                fn_end,
                #[trigger] call_windows(insns, m, text_vaddr, text, fn_start)[k],
            ),
    decreases m,
{
    if m > 0 {
        lemma_call_windows_in_function(insns, m - 1, text_vaddr, text, fn_start, fn_end, fn_bytes);
        let prev = call_windows(insns, m - 1, text_vaddr, text, fn_start);
        let cur = call_windows(insns, m, text_vaddr, text, fn_start);
        if prev.len() < MAX_ATOMS_PER_FN {
            if let Some(b) = call_window(insns[m - 1], text_vaddr, text, fn_start) {
                lemma_call_window_in_function(insns[m - 1], text_vaddr, text, fn_start, fn_end, fn_bytes, b);
            }
        }
        assert forall|k: int| 0 <= k < cur.len() implies slice_of_function(text_vaddr, text, fn_start, fn_end, #[trigger] cur[k]) by {
            if k < prev.len() {
                assert(cur[k] == prev[k]);
            }
        }
    }
}

/// Every code atom of a function is a run of the function's own bytes: it
/// never reaches before `fn_start` or past `fn_end`, and it is exactly the
/// bytes `.text` holds there.
pub proof fn lemma_code_atoms_inside_function(text_vaddr: u64, text: Seq<u8>, fn_start: u64, fn_end: u64, r: Seq<CodeAtom>)
    requires
        fn_start <= fn_end,
        code_atoms_for(text_vaddr, text, fn_start, fn_end, r),
    ensures
        forall|k: int| 0 <= k < r.len() ==> slice_of_function(text_vaddr, text, fn_start, fn_end, (#[trigger] r[k]).bytes@),
{
    if let Some(fn_bytes) = section_slice(text_vaddr, text, fn_start, (fn_end - fn_start) as usize) {
        let insns = choose|insns: Seq<X86Insn>|
            #[trigger] is_sweep(insns, fn_bytes, fn_start) && atoms_hold(
                r,
                code_atoms_of(insns, text_vaddr, text, fn_start, fn_end),
                fn_start,
            );
        assert(fn_bytes.len() == ((fn_end - fn_start) as usize));
        assert(((fn_end - fn_start) as usize) <= fn_end - fn_start) by (bit_vector)
            requires fn_start <= fn_end;
        assert forall|k: int| 0 <= k < insns.len() implies (#[trigger] insns[k]).ip == fn_start + insns[k].offset
            && insns[k].offset + insns[k].len <= fn_bytes.len() by {
            lemma_sweep_insn(insns, fn_bytes, fn_start, k);
        }
        lemma_call_windows_in_function(insns, insns.len() as int, text_vaddr, text, fn_start, fn_end, fn_bytes);
        let calls = call_windows(insns, insns.len() as int, text_vaddr, text, fn_start);
        let w = code_atoms_of(insns, text_vaddr, text, fn_start, fn_end);
        if calls.len() == 0 {
            let span = fn_end - fn_start;
            let win = if span < ENTRY_WINDOW { span } else { ENTRY_WINDOW as int };
            if let Some(b) = section_slice(text_vaddr, text, fn_start, win as usize) {
                assert(win as usize == win);
                assert(slice_of_function(text_vaddr, text, fn_start, fn_end, b));
            }
        }
        assert forall|k: int| 0 <= k < r.len() implies slice_of_function(text_vaddr, text, fn_start, fn_end, (#[trigger] r[k]).bytes@) by {
            assert(r[k].bytes@ == w[k]);
        }
    }
}

} // verus!
