//! The decisions of one run: which functions to sign, which strings and code
//! atoms a Tier 2 rule carries, and whether a Tier 1 rule is earned.
use vstd::prelude::*;

use crate::behavior::{behavior_strings_for, extract_behavior_strings, BehaviorString};
use crate::code::{code_atoms_for, extract_code_atoms, CodeAtom};
use crate::elfview::{RelaRelative, Section};
use crate::ingest::FnRange;
use crate::mask::{mask_function, masked_atom_for, MaskedAtom};
use crate::order::{insert_sorted, lemma_sorted_strs_unique, sorted_strs, sorts_strs, strs_increasing, views};
use crate::rarity::{collides, is_rare, is_reduction, masked_match, survives, window_at, Corpus, ReducedAtom};

verus! {

/// The census attributes `f` with the strong tier.
pub open spec fn is_strong(f: FnRange) -> bool {
    f.tier@ == "strong"@
}

/// Indices of the strong functions among `fs[0..m]`, in order.
pub open spec fn strong_indices(fs: Seq<FnRange>, m: int) -> Seq<usize>
    decreases m,
{
    if m <= 0 {
        Seq::empty()
    } else {
        let prev = strong_indices(fs, m - 1);
        if is_strong(fs[m - 1]) {
            prev.push((m - 1) as usize)
        } else {
            prev
        }
    }
}

/// Indices of the functions the census attributes with the strong tier.
pub fn strong_functions(functions: &Vec<FnRange>) -> (r: Vec<usize>)
    ensures
        r@ == strong_indices(functions@, functions@.len() as int),
{
    let strong = String::from_str("strong");
    let mut out: Vec<usize> = Vec::new();
    let mut k: usize = 0;
    while k < functions.len()
        invariant
            k <= functions@.len(),
            strong@ == "strong"@,
            out@ == strong_indices(functions@, k as int),
        decreases functions@.len() - k,
    {
        if functions[k].tier == strong {
            out.push(k);
        }
        k += 1;
    }
    out
}

/// Why no rule is written for a sample.
#[derive(Debug, Clone, Copy, PartialEq, Eq, Structural)]
pub enum Refusal {
    /// Tier 0: the census attributes no strong function.
    NoStrongFunctions,
    /// Tier 0: the binary has no `.text` section.
    NoText,
    /// The strong functions carry no panic source path, so the string factor
    /// of a Tier 2 rule is missing.
    NoPanicStrings,
}

/// The refusal that the evidence known so far calls for: `None` for a fact
/// not gathered yet. Checked in order: strong functions, `.text`, panic
/// strings.
pub open spec fn refusal_for(strong_count: nat, has_text: Option<bool>, panic_count: Option<nat>) -> Option<Refusal> {
    if strong_count == 0 {
        Some(Refusal::NoStrongFunctions)
    } else if has_text == Some(false) {
        Some(Refusal::NoText)
    } else if panic_count == Some(0nat) {
        Some(Refusal::NoPanicStrings)
    } else {
        None
    }
}

/// Decide whether to refuse the sample, from the evidence known so far
/// (`None` for a fact not gathered yet).
pub fn tier2_refusal(strong_count: usize, has_text: Option<bool>, panic_count: Option<usize>) -> (r: Option<Refusal>)
    ensures
        r == refusal_for(
            strong_count as nat,
            has_text,
            match panic_count {
                Some(n) => Some(n as nat),
                None => None,
            },
        ),
{
    if strong_count == 0 {
        Some(Refusal::NoStrongFunctions)
    } else if has_text == Some(false) {
        Some(Refusal::NoText)
    } else if panic_count == Some(0) {
        Some(Refusal::NoPanicStrings)
    } else {
        None
    }
}

impl Refusal {
    /// The exit status of a refusal: 1 for Tier 0, 2 for a missing string
    /// factor.
    pub fn exit_code(&self) -> (c: i32)
        ensures
            c == (if *self == Refusal::NoPanicStrings { 2i32 } else { 1i32 }),
    {
        match self {
            Refusal::NoPanicStrings => 2,
            _ => 1,
        }
    }
}

/// Every index in `strong` names a function of `fs` whose range is ordered.
pub open spec fn valid_selection(fs: Seq<FnRange>, strong: Seq<usize>) -> bool {
    forall|k: int| 0 <= k < strong.len() ==> {
        &&& (#[trigger] strong[k]) < fs.len()
        &&& fs[strong[k] as int].start <= fs[strong[k] as int].end
    }
}

/// Panic source paths of the functions `strong[0..m]`, in order.
pub open spec fn anchors_of(fs: Seq<FnRange>, strong: Seq<usize>, m: int) -> Seq<Seq<char>>
    decreases m,
{
    if m <= 0 {
        Seq::empty()
    } else {
        anchors_of(fs, strong, m - 1) + views(fs[strong[m - 1] as int].anchor_files@)
    }
}

/// The panic paths of `strong[0..m]` are exactly the anchor files of those
/// functions.
pub proof fn lemma_anchors_of_contains(fs: Seq<FnRange>, strong: Seq<usize>, m: int)
    requires
        0 <= m <= strong.len(),
    ensures
        forall|k: int, a: int|
            0 <= k < m && 0 <= a < fs[strong[k] as int].anchor_files@.len() ==> anchors_of(fs, strong, m).contains(
                #[trigger] fs[strong[k] as int].anchor_files@[a]@,
            ),
        forall|x: Seq<char>|
            #[trigger] anchors_of(fs, strong, m).contains(x) ==> exists|k: int, a: int|
                0 <= k < m && 0 <= a < fs[strong[k] as int].anchor_files@.len() && x
                    == #[trigger] fs[strong[k] as int].anchor_files@[a]@,
    decreases m,
{
    if m > 0 {
        lemma_anchors_of_contains(fs, strong, m - 1);
        let prev = anchors_of(fs, strong, m - 1);
        let last = views(fs[strong[m - 1] as int].anchor_files@);
        let cur = anchors_of(fs, strong, m);
        assert(cur == prev + last);
        assert forall|k: int, a: int|
            0 <= k < m && 0 <= a < fs[strong[k] as int].anchor_files@.len() implies cur.contains(
                #[trigger] fs[strong[k] as int].anchor_files@[a]@,
            ) by {
            let x = fs[strong[k] as int].anchor_files@[a]@;
            if k < m - 1 {
                assert(prev.contains(x));
                let i = choose|i: int| 0 <= i < prev.len() && prev[i] == x;
                assert(cur[i] == x);
            } else {
                assert(last[a] == x);
                assert(cur[prev.len() + a] == x);
            }
        }
        assert forall|x: Seq<char>| #[trigger] cur.contains(x) implies exists|k: int, a: int|
            0 <= k < m && 0 <= a < fs[strong[k] as int].anchor_files@.len() && x
                == #[trigger] fs[strong[k] as int].anchor_files@[a]@ by {
            let i = choose|i: int| 0 <= i < cur.len() && cur[i] == x;
            if i < prev.len() {
                assert(prev[i] == x);
                assert(prev.contains(x));
            } else {
                let a = i - prev.len();
                assert(last[a] == x);
                assert(x == fs[strong[m - 1] as int].anchor_files@[a]@);
            }
        }
    }
}

/// `parts` concatenated in order.
pub open spec fn concat_atoms(parts: Seq<Seq<CodeAtom>>) -> Seq<CodeAtom>
    decreases parts.len(),
{
    if parts.len() == 0 {
        Seq::empty()
    } else {
        concat_atoms(parts.drop_last()) + parts.last()
    }
}

/// What a Tier 2 rule carries.
pub struct Tier2Material {
    /// The distinct panic source paths of the strong functions, sorted.
    pub panic_strings: Vec<String>,
    /// The code atoms of each strong function, in function order.
    pub code_atoms: Vec<CodeAtom>,
}

/// Gather the panic source paths and code atoms of the strong functions.
pub fn collect_tier2(functions: &Vec<FnRange>, strong: &Vec<usize>, text: &Section) -> (r: Tier2Material)
    requires
        valid_selection(functions@, strong@),
    ensures
        views(r.panic_strings@) == sorted_strs(anchors_of(functions@, strong@, strong@.len() as int)),
        strs_increasing(views(r.panic_strings@)),
        forall|k: int, a: int|
            0 <= k < strong@.len() && 0 <= a < functions@[strong@[k] as int].anchor_files@.len() ==> views(
                r.panic_strings@,
            ).contains(#[trigger] functions@[strong@[k] as int].anchor_files@[a]@),
        forall|x: Seq<char>|
            #[trigger] views(r.panic_strings@).contains(x) ==> exists|k: int, a: int|
                0 <= k < strong@.len() && 0 <= a < functions@[strong@[k] as int].anchor_files@.len() && x
                    == #[trigger] functions@[strong@[k] as int].anchor_files@[a]@,
        exists|parts: Seq<Seq<CodeAtom>>|
            parts.len() == strong@.len() && r.code_atoms@ == concat_atoms(parts) && forall|k: int|
                0 <= k < parts.len() ==> #[trigger] code_atoms_for(
                    text.vaddr,
                    text.data@,
                    functions@[strong@[k] as int].start,
                    functions@[strong@[k] as int].end,
                    parts[k],
                ),
{
    let mut panic_strings: Vec<String> = Vec::new();
    let mut code_atoms: Vec<CodeAtom> = Vec::new();
    let ghost mut parts: Seq<Seq<CodeAtom>> = Seq::empty();
    let mut k: usize = 0;
    while k < strong.len()
        invariant
            valid_selection(functions@, strong@),
            k <= strong@.len(),
            sorts_strs(views(panic_strings@), anchors_of(functions@, strong@, k as int)),
            parts.len() == k,
            code_atoms@ == concat_atoms(parts),
            forall|j: int|
                0 <= j < k ==> #[trigger] code_atoms_for(
                    text.vaddr,
                    text.data@,
                    functions@[strong@[j] as int].start,
                    functions@[strong@[j] as int].end,
                    parts[j],
                ),
        decreases strong@.len() - k,
    {
        let f = &functions[strong[k]];
        let files = &f.anchor_files;
        let ghost before = anchors_of(functions@, strong@, k as int);
        let mut j: usize = 0;
        while j < files.len()
            invariant
                j <= files@.len(),
                sorts_strs(views(panic_strings@), before + views(files@.take(j as int))),
            decreases files@.len() - j,
        {
            let ghost prev = views(panic_strings@);
            insert_sorted(&mut panic_strings, files[j].clone());
            proof {
                let now = before + views(files@.take(j as int + 1));
                let was = before + views(files@.take(j as int));
                assert(views(files@.take(j as int + 1)) =~= views(files@.take(j as int)).push(files@[j as int]@));
                assert(now =~= was.push(files@[j as int]@));
                assert forall|x: Seq<char>| views(panic_strings@).contains(x) <==> now.contains(x) by {
                    if x == files@[j as int]@ {
                        assert(now[now.len() - 1] == x);
                    }
                    if now.contains(x) && x != files@[j as int]@ {
                        let i = choose|i: int| 0 <= i < now.len() && now[i] == x;
                        assert(was[i] == x);
                    }
                    if was.contains(x) {
                        let i = choose|i: int| 0 <= i < was.len() && was[i] == x;
                        assert(now[i] == x);
                    }
                }
            }
            j += 1;
        }
        assert(files@.take(j as int) =~= files@);
        let atoms = extract_code_atoms(text, f.start, f.end);
        let ghost more = atoms@;
        let mut atoms = atoms;
        code_atoms.append(&mut atoms);
        proof {
            assert(parts.push(more).drop_last() =~= parts);
            parts = parts.push(more);
        }
        k += 1;
    }
    proof {
        lemma_sorted_strs_unique(views(panic_strings@), sorted_strs(anchors_of(functions@, strong@, strong@.len() as int)));
        lemma_anchors_of_contains(functions@, strong@, strong@.len() as int);
    }
    Tier2Material { panic_strings, code_atoms }
}


/// What became of a strong function's masked atom.
pub enum AtomOutcome {
    /// The function's range does not lie inside `.text`.
    Unavailable,
    /// No window of the atom survives the corpus.
    Dropped,
    /// The atom reduced to a discriminative window.
    Reduced(ReducedAtom),
}

/// The masked-atom outcome of one strong function.
pub struct FnAtom {
    pub fn_start: u64,
    pub outcome: AtomOutcome,
}

/// A behavioral string harvested from the strong functions.
pub struct Candidate {
    pub text: String,
    /// The first strong function that produced it.
    pub fn_start: u64,
    /// It occurs in no corpus file.
    pub rare: bool,
}

/// Whether a Tier 1 rule is earned, and if not, why.
#[derive(Debug, Clone, Copy, PartialEq, Eq, Structural)]
pub enum Tier1Verdict {
    Earned,
    /// No masked atom survived reduction and no behavioral string is rare.
    NoCodeNoString,
    /// No masked atom survived reduction.
    NoCode,
    /// No behavioral string survived rarity filtering.
    NoString,
    /// Every function with a surviving masked atom also produced a kept
    /// behavioral string, so no disjoint pairing exists.
    NotIndependent,
}

/// Everything the Tier 1 attempt decided.
pub struct Tier1Selection {
    /// Per strong function, in order: what became of its masked atom.
    pub atoms: Vec<FnAtom>,
    /// Behavioral candidates in text order.
    pub candidates: Vec<Candidate>,
    /// Reduced atoms of functions that produced no kept behavioral string.
    pub masked_atoms: Vec<MaskedAtom>,
    /// Functions whose reduced atom was dropped for sharing the function with
    /// a kept behavioral string.
    pub shared_fns: Vec<u64>,
    /// The rare candidates, as `(text, fn_start)`.
    pub behavior_strings: Vec<(String, u64)>,
    pub verdict: Tier1Verdict,
}

/// `o` is what becomes of the masked atom of `f`: masked over `.text`, then
/// reduced against the corpus `files`.
pub open spec fn atom_outcome_for(
    text_vaddr: u64,
    text: Seq<u8>,
    rela: Seq<RelaRelative>,
    files: Seq<(Seq<char>, Seq<u8>)>,
    f: FnRange,
    o: FnAtom,
) -> bool {
    &&& o.fn_start == f.start
    &&& exists|m: Option<MaskedAtom>|
        #[trigger] masked_atom_for(text_vaddr, text, rela, f.start, f.end, m) && match m {
            None => o.outcome is Unavailable,
            Some(a) => exists|r: Option<ReducedAtom>|
                #[trigger] is_reduction(files, a.bytes@, r) && match r {
                    None => o.outcome is Dropped,
                    Some(ra) => o.outcome == AtomOutcome::Reduced(ra),
                },
        }
}

/// The strings of `part` that are not panic strings, with their function.
pub open spec fn part_candidates(part: Seq<BehaviorString>, panic: Seq<Seq<char>>) -> Seq<(Seq<char>, u64)>
    decreases part.len(),
{
    if part.len() == 0 {
        Seq::empty()
    } else {
        let prev = part_candidates(part.drop_last(), panic);
        if panic.contains(part.last().text@) {
            prev
        } else {
            prev.push((part.last().text@, part.last().fn_start))
        }
    }
}

/// The non-panic strings of `parts[0..m]`, in order, with their function.
pub open spec fn raw_candidates(parts: Seq<Seq<BehaviorString>>, m: int, panic: Seq<Seq<char>>) -> Seq<(Seq<char>, u64)>
    decreases m,
{
    if m <= 0 {
        Seq::empty()
    } else {
        raw_candidates(parts, m - 1, panic) + part_candidates(parts[m - 1], panic)
    }
}

/// The function of the first candidate with text `t`.
pub open spec fn first_fn(raw: Seq<(Seq<char>, u64)>, t: Seq<char>) -> u64
    decreases raw.len(),
{
    if raw.len() == 0 {
        0
    } else if raw[0].0 == t {
        raw[0].1
    } else {
        first_fn(raw.drop_first(), t)
    }
}

/// The texts of the candidates.
pub open spec fn texts(raw: Seq<(Seq<char>, u64)>) -> Seq<Seq<char>> {
    raw.map_values(|c: (Seq<char>, u64)| c.0)
}

/// `cands` is the distinct texts of `raw` in text order, each with its first
/// function and its rarity against `files`.
pub open spec fn candidates_from(cands: Seq<Candidate>, raw: Seq<(Seq<char>, u64)>, files: Seq<(Seq<char>, Seq<u8>)>) -> bool {
    let sorted = sorted_strs(texts(raw));
    &&& cands.len() == sorted.len()
    &&& forall|k: int|
        0 <= k < cands.len() ==> {
            &&& (#[trigger] cands[k]).text@ == sorted[k]
            &&& cands[k].fn_start == first_fn(raw, sorted[k])
            &&& cands[k].rare == is_rare(files, sorted[k])
        }
}

/// The rare candidates among `cands[0..m]`, as `(text, fn_start)`.
pub open spec fn kept_strings(cands: Seq<Candidate>, m: int) -> Seq<(Seq<char>, u64)>
    decreases m,
{
    if m <= 0 {
        Seq::empty()
    } else {
        let prev = kept_strings(cands, m - 1);
        if cands[m - 1].rare {
            prev.push((cands[m - 1].text@, cands[m - 1].fn_start))
        } else {
            prev
        }
    }
}

/// `p` is the text and function of a rare candidate among `cands[0..m]`.
pub open spec fn is_rare_candidate(cands: Seq<Candidate>, m: int, p: (Seq<char>, u64)) -> bool {
    exists|k: int| 0 <= k < m && (#[trigger] cands[k]).rare && p == (cands[k].text@, cands[k].fn_start)
}

/// The kept strings among `cands[0..m]` are exactly the rare candidates:
/// every rare candidate is kept, and everything kept is a rare candidate.
pub proof fn lemma_kept_strings_are_the_rare_candidates(cands: Seq<Candidate>, m: int)
    requires
        0 <= m <= cands.len(),
    ensures
        forall|k: int|
            0 <= k < m && (#[trigger] cands[k]).rare ==> kept_strings(cands, m).contains(
                (cands[k].text@, cands[k].fn_start),
            ),
        forall|j: int|
            0 <= j < kept_strings(cands, m).len() ==> is_rare_candidate(cands, m, #[trigger] kept_strings(cands, m)[j]),
    decreases m,
{
    if m > 0 {
        lemma_kept_strings_are_the_rare_candidates(cands, m - 1);
        let prev = kept_strings(cands, m - 1);
        let cur = kept_strings(cands, m);
        assert forall|k: int| 0 <= k < m && (#[trigger] cands[k]).rare implies cur.contains(
            (cands[k].text@, cands[k].fn_start),
        ) by {
            if k < m - 1 {
                let i = choose|i: int| 0 <= i < prev.len() && prev[i] == (cands[k].text@, cands[k].fn_start);
                assert(cur[i] == prev[i]);
            } else {
                assert(cur[prev.len() as int] == (cands[k].text@, cands[k].fn_start));
            }
        }
        assert forall|j: int| 0 <= j < cur.len() implies is_rare_candidate(cands, m, #[trigger] cur[j]) by {
            if cands[m - 1].rare {
                assert(cur == prev.push((cands[m - 1].text@, cands[m - 1].fn_start)));
            } else {
                assert(cur == prev);
            }
            if j < prev.len() {
                assert(cur[j] == prev[j]);
                assert(is_rare_candidate(cands, m - 1, prev[j]));
                let k = choose|k: int|
                    0 <= k < m - 1 && (#[trigger] cands[k]).rare && prev[j] == (cands[k].text@, cands[k].fn_start);
                assert(cands[k].rare && cur[j] == (cands[k].text@, cands[k].fn_start));
            } else {
                assert(cands[m - 1].rare);
                assert(cur[j] == (cands[m - 1].text@, cands[m - 1].fn_start));
            }
        }
    } else {
        assert(kept_strings(cands, m).len() == 0);
    }
}

/// Some kept string came from function `fn_start`.
pub open spec fn string_fn(kept: Seq<(Seq<char>, u64)>, fn_start: u64) -> bool {
    exists|k: int| 0 <= k < kept.len() && (#[trigger] kept[k]).1 == fn_start
}

/// Reduced atoms among `atoms[0..m]` from functions no kept string came from.
pub open spec fn independent_atoms(atoms: Seq<FnAtom>, m: int, kept: Seq<(Seq<char>, u64)>) -> Seq<(u64, Seq<crate::mask::MaskByte>)>
    decreases m,
{
    if m <= 0 {
        Seq::empty()
    } else {
        let prev = independent_atoms(atoms, m - 1, kept);
        match atoms[m - 1].outcome {
            AtomOutcome::Reduced(ra) => if string_fn(kept, atoms[m - 1].fn_start) {
                prev
            } else {
                prev.push((atoms[m - 1].fn_start, ra.bytes@))
            },
            _ => prev,
        }
    }
}

/// Functions among `atoms[0..m]` whose reduced atom shares the function with a
/// kept string.
pub open spec fn shared_atom_fns(atoms: Seq<FnAtom>, m: int, kept: Seq<(Seq<char>, u64)>) -> Seq<u64>
    decreases m,
{
    if m <= 0 {
        Seq::empty()
    } else {
        let prev = shared_atom_fns(atoms, m - 1, kept);
        if atoms[m - 1].outcome is Reduced && string_fn(kept, atoms[m - 1].fn_start) {
            prev.push(atoms[m - 1].fn_start)
        } else {
            prev
        }
    }
}

/// Some strong function's atom survived reduction.
pub open spec fn any_reduced(atoms: Seq<FnAtom>) -> bool {
    exists|k: int| 0 <= k < atoms.len() && (#[trigger] atoms[k]).outcome is Reduced
}

/// The verdict, from what survived.
pub open spec fn verdict_of(reduced: bool, kept: bool, independent: bool) -> Tier1Verdict {
    if !reduced && !kept {
        Tier1Verdict::NoCodeNoString
    } else if !reduced {
        Tier1Verdict::NoCode
    } else if !kept {
        Tier1Verdict::NoString
    } else if !independent {
        Tier1Verdict::NotIndependent
    } else {
        Tier1Verdict::Earned
    }
}


/// The views of candidate pairs.
pub open spec fn pair_views(raw: Seq<(String, u64)>) -> Seq<(Seq<char>, u64)> {
    raw.map_values(|c: (String, u64)| (c.0@, c.1))
}

fn contains_string(strs: &Vec<String>, s: &String) -> (r: bool)
    ensures
        r == views(strs@).contains(s@),
{
    let mut k: usize = 0;
    while k < strs.len()
        invariant
            k <= strs@.len(),
            forall|j: int| 0 <= j < k ==> views(strs@)[j] != s@,
        decreases strs@.len() - k,
    {
        if strs[k] == *s {
            assert(views(strs@)[k as int] == s@);
            return true;
        }
        k += 1;
    }
    false
}

/// Mask each strong function's body and reduce the atom against the corpus.
fn atom_outcomes(functions: &Vec<FnRange>, strong: &Vec<usize>, text: &Section, rela: &[RelaRelative], corpus: &Corpus) -> (r: Vec<FnAtom>)
    requires
        valid_selection(functions@, strong@),
    ensures
        r@.len() == strong@.len(),
        forall|k: int|
            0 <= k < r@.len() ==> atom_outcome_for(
                text.vaddr,
                text.data@,
                rela@,
                corpus@,
                functions@[strong@[k] as int],
                #[trigger] r@[k],
            ),
{
    let mut out: Vec<FnAtom> = Vec::new();
    let mut k: usize = 0;
    while k < strong.len()
        invariant
            valid_selection(functions@, strong@),
            k <= strong@.len(),
            out@.len() == k,
            forall|j: int|
                0 <= j < k ==> atom_outcome_for(
                    text.vaddr,
                    text.data@,
                    rela@,
                    corpus@,
                    functions@[strong@[j] as int],
                    #[trigger] out@[j],
                ),
        decreases strong@.len() - k,
    {
        let f = &functions[strong[k]];
        let masked = mask_function(text, rela, f.start, f.end);
        let outcome = match &masked {
            None => AtomOutcome::Unavailable,
            Some(atom) => match corpus.reduce_atom(atom) {
                None => AtomOutcome::Dropped,
                Some(ra) => AtomOutcome::Reduced(ra),
            },
        };
        let fa = FnAtom { fn_start: f.start, outcome };
        assert(atom_outcome_for(text.vaddr, text.data@, rela@, corpus@, functions@[strong@[k as int] as int], fa));
        out.push(fa);
        k += 1;
    }
    out
}


/// `parts[k]` holds the behavioral strings of strong function `k`.
pub open spec fn behavior_parts(
    text_vaddr: u64,
    text: Seq<u8>,
    rodata_vaddr: u64,
    rodata: Seq<u8>,
    fs: Seq<FnRange>,
    strong: Seq<usize>,
    parts: Seq<Seq<BehaviorString>>,
) -> bool {
    &&& parts.len() == strong.len()
    &&& forall|k: int|
        0 <= k < parts.len() ==> #[trigger] behavior_strings_for(
            text_vaddr,
            text,
            rodata_vaddr,
            rodata,
            fs[strong[k] as int].start,
            fs[strong[k] as int].end,
            parts[k],
        )
}

/// The non-panic behavioral strings of the strong functions, in order.
fn harvest(functions: &Vec<FnRange>, strong: &Vec<usize>, text: &Section, rodata: &Section, panic_strings: &Vec<String>) -> (r: Vec<(String, u64)>)
    requires
        valid_selection(functions@, strong@),
    ensures
        exists|parts: Seq<Seq<BehaviorString>>|
            #[trigger] behavior_parts(text.vaddr, text.data@, rodata.vaddr, rodata.data@, functions@, strong@, parts)
                && pair_views(r@) == raw_candidates(parts, parts.len() as int, views(panic_strings@)),
{
    let mut out: Vec<(String, u64)> = Vec::new();
    let ghost mut parts: Seq<Seq<BehaviorString>> = Seq::empty();
    let ghost panic = views(panic_strings@);
    let mut k: usize = 0;
    while k < strong.len()
        invariant
            valid_selection(functions@, strong@),
            panic == views(panic_strings@),
            k <= strong@.len(),
            parts.len() == k,
            forall|j: int|
                0 <= j < k ==> #[trigger] behavior_strings_for(
                    text.vaddr,
                    text.data@,
                    rodata.vaddr,
                    rodata.data@,
                    functions@[strong@[j] as int].start,
                    functions@[strong@[j] as int].end,
                    parts[j],
                ),
            pair_views(out@) == raw_candidates(parts, k as int, panic),
        decreases strong@.len() - k,
    {
        let f = &functions[strong[k]];
        let found = extract_behavior_strings(text, rodata, f.start, f.end);
        let ghost base = pair_views(out@);
        let mut j: usize = 0;
        while j < found.len()
            invariant
                panic == views(panic_strings@),
                j <= found@.len(),
                pair_views(out@) == base + part_candidates(found@.take(j as int), panic),
            decreases found@.len() - j,
        {
            assert(found@.take(j as int + 1).drop_last() =~= found@.take(j as int));
            assert(found@.take(j as int + 1).last() == found@[j as int]);
            if !contains_string(panic_strings, &found[j].text) {
                let ghost prev = pair_views(out@);
                let t = found[j].text.clone();
                assert(t@ == found@[j as int].text@);
                out.push((t, found[j].fn_start));
                assert(pair_views(out@) =~= prev.push((found@[j as int].text@, found@[j as int].fn_start)));
                assert(part_candidates(found@.take(j as int + 1), panic) == part_candidates(found@.take(j as int), panic).push(
                    (found@[j as int].text@, found@[j as int].fn_start),
                ));
                assert(pair_views(out@) =~= base + part_candidates(found@.take(j as int + 1), panic));
            }
            j += 1;
        }
        assert(found@.take(j as int) =~= found@);
        proof {
            let np = parts.push(found@);
            assert(np.drop_last() =~= parts);
            assert forall|m: int| 0 <= m <= k implies raw_candidates(np, m, panic) == raw_candidates(parts, m, panic) by {
                lemma_raw_prefix(np, parts, m, panic);
            }
            parts = np;
        }
        k += 1;
    }
    assert(behavior_parts(text.vaddr, text.data@, rodata.vaddr, rodata.data@, functions@, strong@, parts));
    out
}

/// `raw_candidates` reads only the parts before `m`.
proof fn lemma_raw_prefix(a: Seq<Seq<BehaviorString>>, b: Seq<Seq<BehaviorString>>, m: int, panic: Seq<Seq<char>>)
    requires
        0 <= m <= b.len(),
        b.len() <= a.len(),
        forall|i: int| 0 <= i < b.len() ==> a[i] == b[i],
    ensures
        raw_candidates(a, m, panic) == raw_candidates(b, m, panic),
    decreases m,
{
    if m > 0 {
        lemma_raw_prefix(a, b, m - 1, panic);
    }
}

/// The function of the first candidate in `raw` with text `t`.
fn first_fn_of(raw: &Vec<(String, u64)>, t: &String) -> (r: u64)
    ensures
        r == first_fn(pair_views(raw@), t@),
{
    let mut i: usize = 0;
    let ghost all = pair_views(raw@);
    assert(all.skip(0) =~= all);
    while i < raw.len()
        invariant
            all == pair_views(raw@),
            i <= raw@.len(),
            first_fn(all, t@) == first_fn(all.skip(i as int), t@),
        decreases raw@.len() - i,
    {
        assert(all.skip(i as int)[0] == (raw@[i as int].0@, raw@[i as int].1));
        if raw[i].0 == *t {
            return raw[i].1;
        }
        assert(all.skip(i as int).drop_first() =~= all.skip(i + 1));
        i += 1;
    }
    0
}

/// Rank the raw candidates: distinct texts in text order, each with its first
/// function and its rarity against the corpus.
fn rank_candidates(raw: &Vec<(String, u64)>, corpus: &Corpus) -> (r: Vec<Candidate>)
    ensures
        candidates_from(r@, pair_views(raw@), corpus@),
{
    let ghost tx = texts(pair_views(raw@));
    let mut sorted: Vec<String> = Vec::new();
    let mut i: usize = 0;
    while i < raw.len()
        invariant
            tx == texts(pair_views(raw@)),
            i <= raw@.len(),
            sorts_strs(views(sorted@), tx.take(i as int)),
        decreases raw@.len() - i,
    {
        insert_sorted(&mut sorted, raw[i].0.clone());
        proof {
            assert(tx.take(i as int + 1) =~= tx.take(i as int).push(raw@[i as int].0@));
            assert forall|x: Seq<char>| views(sorted@).contains(x) <==> tx.take(i as int + 1).contains(x) by {
                let now = tx.take(i as int + 1);
                let was = tx.take(i as int);
                if x == raw@[i as int].0@ {
                    assert(now[i as int] == x);
                }
                if now.contains(x) && x != raw@[i as int].0@ {
                    let j = choose|j: int| 0 <= j < now.len() && now[j] == x;
                    assert(was[j] == x);
                }
                if was.contains(x) {
                    let j = choose|j: int| 0 <= j < was.len() && was[j] == x;
                    assert(now[j] == x);
                }
            }
        }
        i += 1;
    }
    proof {
        assert(tx.take(i as int) =~= tx);
        lemma_sorted_strs_unique(views(sorted@), sorted_strs(tx));
    }
    let mut out: Vec<Candidate> = Vec::new();
    let mut k: usize = 0;
    while k < sorted.len()
        invariant
            views(sorted@) == sorted_strs(texts(pair_views(raw@))),
            k <= sorted@.len(),
            out@.len() == k,
            forall|j: int|
                0 <= j < k ==> {
                    &&& (#[trigger] out@[j]).text@ == views(sorted@)[j]
                    &&& out@[j].fn_start == first_fn(pair_views(raw@), views(sorted@)[j])
                    &&& out@[j].rare == is_rare(corpus@, views(sorted@)[j])
                },
        decreases sorted@.len() - k,
    {
        let text = sorted[k].clone();
        let fn_start = first_fn_of(raw, &text);
        let rare = corpus.string_is_rare(text.as_str());
        out.push(Candidate { text, fn_start, rare });
        k += 1;
    }
    out
}


/// The views of masked atoms, as `(fn_start, bytes)`.
pub open spec fn atom_views(atoms: Seq<MaskedAtom>) -> Seq<(u64, Seq<crate::mask::MaskByte>)> {
    atoms.map_values(|a: MaskedAtom| (a.fn_start, a.bytes@))
}

fn from_string_fn(kept: &Vec<(String, u64)>, fn_start: u64) -> (r: bool)
    ensures
        r == string_fn(pair_views(kept@), fn_start),
{
    let mut k: usize = 0;
    while k < kept.len()
        invariant
            k <= kept@.len(),
            forall|j: int| 0 <= j < k ==> pair_views(kept@)[j].1 != fn_start,
        decreases kept@.len() - k,
    {
        if kept[k].1 == fn_start {
            assert(pair_views(kept@)[k as int].1 == fn_start);
            return true;
        }
        k += 1;
    }
    false
}

/// Attempt a Tier 1 rule: reduce each strong function's masked atom against
/// the corpus, harvest the non-panic behavioral strings (when `.rodata` is
/// present) and keep the rare ones, then keep only the atoms of functions
/// that produced no kept string, so the two factors come from disjoint
/// functions.
pub fn select_tier1(
    functions: &Vec<FnRange>,
    strong: &Vec<usize>,
    text: &Section,
    rodata: Option<&Section>,
    rela: &[RelaRelative],
    corpus: &Corpus,
    panic_strings: &Vec<String>,
) -> (r: Tier1Selection)
    requires
        valid_selection(functions@, strong@),
    ensures
        r.atoms@.len() == strong@.len(),
        forall|k: int|
            0 <= k < r.atoms@.len() ==> atom_outcome_for(
                text.vaddr,
                text.data@,
                rela@,
                corpus@,
                functions@[strong@[k] as int],
                #[trigger] r.atoms@[k],
            ),
        rodata is None ==> r.candidates@.len() == 0,
        rodata matches Some(rd) ==> exists|parts: Seq<Seq<BehaviorString>>|
            #[trigger] behavior_parts(text.vaddr, text.data@, rd.vaddr, rd.data@, functions@, strong@, parts)
                && candidates_from(
                r.candidates@,
                raw_candidates(parts, parts.len() as int, views(panic_strings@)),
                corpus@,
            ),
        pair_views(r.behavior_strings@) == kept_strings(r.candidates@, r.candidates@.len() as int),
        forall|k: int|
            0 <= k < r.candidates@.len() && (#[trigger] r.candidates@[k]).rare ==> pair_views(
                r.behavior_strings@,
            ).contains((r.candidates@[k].text@, r.candidates@[k].fn_start)),
        forall|j: int|
            0 <= j < r.behavior_strings@.len() ==> is_rare_candidate(
                r.candidates@,
                r.candidates@.len() as int,
                #[trigger] pair_views(r.behavior_strings@)[j],
            ),
        atom_views(r.masked_atoms@) == independent_atoms(r.atoms@, r.atoms@.len() as int, pair_views(r.behavior_strings@)),
        r.shared_fns@ == shared_atom_fns(r.atoms@, r.atoms@.len() as int, pair_views(r.behavior_strings@)),
        r.verdict == verdict_of(any_reduced(r.atoms@), r.behavior_strings@.len() > 0, r.masked_atoms@.len() > 0),
{
    let atoms = atom_outcomes(functions, strong, text, rela, corpus);
    let raw = match rodata {
        Some(rd) => harvest(functions, strong, text, rd, panic_strings),
        None => Vec::new(),
    };
    let candidates = rank_candidates(&raw, corpus);
    proof {
        if rodata is None {
            assert(texts(pair_views(raw@)) =~= Seq::<Seq<char>>::empty());
            assert(sorts_strs(Seq::empty(), texts(pair_views(raw@))));
            lemma_sorted_strs_unique(Seq::empty(), sorted_strs(texts(pair_views(raw@))));
        }
    }
    let mut behavior_strings: Vec<(String, u64)> = Vec::new();
    let mut k: usize = 0;
    while k < candidates.len()
        invariant
            k <= candidates@.len(),
            pair_views(behavior_strings@) == kept_strings(candidates@, k as int),
        decreases candidates@.len() - k,
    {
        if candidates[k].rare {
            let t = candidates[k].text.clone();
            let ghost prev = pair_views(behavior_strings@);
            behavior_strings.push((t, candidates[k].fn_start));
            assert(pair_views(behavior_strings@) =~= prev.push((candidates@[k as int].text@, candidates@[k as int].fn_start)));
        }
        k += 1;
    }
    let ghost kept = pair_views(behavior_strings@);
    proof {
        lemma_kept_strings_are_the_rare_candidates(candidates@, candidates@.len() as int);
    }
    let mut masked_atoms: Vec<MaskedAtom> = Vec::new();
    let mut shared_fns: Vec<u64> = Vec::new();
    let mut reduced = false;
    let mut k: usize = 0;
    while k < atoms.len()
        invariant
            kept == pair_views(behavior_strings@),
            k <= atoms@.len(),
            atom_views(masked_atoms@) == independent_atoms(atoms@, k as int, kept),
            shared_fns@ == shared_atom_fns(atoms@, k as int, kept),
            reduced == exists|j: int| 0 <= j < k && (#[trigger] atoms@[j]).outcome is Reduced,
        decreases atoms@.len() - k,
    {
        let fn_start = atoms[k].fn_start;
        match &atoms[k].outcome {
            AtomOutcome::Reduced(ra) => {
                reduced = true;
                if from_string_fn(&behavior_strings, fn_start) {
                    shared_fns.push(fn_start);
                } else {
                    let ghost prev = atom_views(masked_atoms@);
                    masked_atoms.push(MaskedAtom { fn_start, bytes: vstd::slice::slice_to_vec(ra.bytes.as_slice()) });
                    assert(atom_views(masked_atoms@) =~= prev.push((fn_start, ra.bytes@)));
                }
            },
            _ => {},
        }
        k += 1;
    }
    let verdict = if !reduced && behavior_strings.len() == 0 {
        Tier1Verdict::NoCodeNoString
    } else if !reduced {
        Tier1Verdict::NoCode
    } else if behavior_strings.len() == 0 {
        Tier1Verdict::NoString
    } else if masked_atoms.len() == 0 {
        Tier1Verdict::NotIndependent
    } else {
        Tier1Verdict::Earned
    };
    Tier1Selection { atoms, candidates, masked_atoms, shared_fns, behavior_strings, verdict }
}


/// The code factor and the string factor of a Tier 1 rule come from disjoint
/// functions: no kept atom shares its function with a kept string.
pub proof fn lemma_factors_are_disjoint(atoms: Seq<FnAtom>, m: int, kept: Seq<(Seq<char>, u64)>)
    ensures
        forall|i: int, j: int|
            0 <= i < independent_atoms(atoms, m, kept).len() && 0 <= j < kept.len() ==> (#[trigger] independent_atoms(
                atoms,
                m,
                kept,
            )[i]).0 != (#[trigger] kept[j]).1,
    decreases m,
{
    if m > 0 {
        let prev = independent_atoms(atoms, m - 1, kept);
        let cur = independent_atoms(atoms, m, kept);
        lemma_factors_are_disjoint(atoms, m - 1, kept);
        assert forall|i: int, j: int| 0 <= i < cur.len() && 0 <= j < kept.len() implies (#[trigger] cur[i]).0
            != (#[trigger] kept[j]).1 by {
            if i < prev.len() {
                assert(cur[i] == prev[i]);
            } else {
                assert(!string_fn(kept, atoms[m - 1].fn_start));
            }
        }
    }
}

/// A kept atom is a reduced one.
proof fn lemma_independent_implies_reduced(atoms: Seq<FnAtom>, m: int, kept: Seq<(Seq<char>, u64)>)
    requires
        0 <= m <= atoms.len(),
        independent_atoms(atoms, m, kept).len() > 0,
    ensures
        any_reduced(atoms),
    decreases m,
{
    if atoms[m - 1].outcome is Reduced {
        assert(atoms[m - 1].outcome is Reduced);
    } else {
        lemma_independent_implies_reduced(atoms, m - 1, kept);
    }
}

/// Tier 1 is earned exactly when both factors survive: at least one reduced
/// atom from a function without a kept string, and at least one kept string.
pub proof fn lemma_earned_iff_both_factors(atoms: Seq<FnAtom>, kept: Seq<(Seq<char>, u64)>)
    ensures
        (verdict_of(
            any_reduced(atoms),
            kept.len() > 0,
            independent_atoms(atoms, atoms.len() as int, kept).len() > 0,
        ) == Tier1Verdict::Earned) <==> (independent_atoms(atoms, atoms.len() as int, kept).len() > 0 && kept.len()
            > 0),
{
    if independent_atoms(atoms, atoms.len() as int, kept).len() > 0 {
        lemma_independent_implies_reduced(atoms, atoms.len() as int, kept);
    }
}

proof fn lemma_part_candidates_not_panic(part: Seq<BehaviorString>, panic: Seq<Seq<char>>)
    ensures
        forall|k: int| 0 <= k < part_candidates(part, panic).len() ==> !panic.contains(
            (#[trigger] part_candidates(part, panic)[k]).0,
        ),
    decreases part.len(),
{
    if part.len() > 0 {
        let prev = part_candidates(part.drop_last(), panic);
        let cur = part_candidates(part, panic);
        lemma_part_candidates_not_panic(part.drop_last(), panic);
        assert forall|k: int| 0 <= k < cur.len() implies !panic.contains((#[trigger] cur[k]).0) by {
            if k < prev.len() {
                assert(cur[k] == prev[k]);
            }
        }
    }
}

/// No behavioral candidate is a panic string: panic paths are the confirming
/// factor and are never counted again as independent evidence.
pub proof fn lemma_candidates_exclude_panic_strings(parts: Seq<Seq<BehaviorString>>, m: int, panic: Seq<Seq<char>>)
    ensures
        forall|k: int| 0 <= k < raw_candidates(parts, m, panic).len() ==> !panic.contains(
            (#[trigger] raw_candidates(parts, m, panic)[k]).0,
        ),
    decreases m,
{
    if m > 0 {
        let prev = raw_candidates(parts, m - 1, panic);
        let last = part_candidates(parts[m - 1], panic);
        let cur = raw_candidates(parts, m, panic);
        lemma_candidates_exclude_panic_strings(parts, m - 1, panic);
        lemma_part_candidates_not_panic(parts[m - 1], panic);
        assert forall|k: int| 0 <= k < cur.len() implies !panic.contains((#[trigger] cur[k]).0) by {
            if k < prev.len() {
                assert(cur[k] == prev[k]);
            } else {
                assert(cur[k] == last[k - prev.len()]);
            }
        }
    }
}

/// A reduced outcome's window matches no corpus file.
proof fn lemma_reduced_outcome_is_clean(
    text_vaddr: u64,
    text: Seq<u8>,
    rela: Seq<RelaRelative>,
    files: Seq<(Seq<char>, Seq<u8>)>,
    f: FnRange,
    o: FnAtom,
)
    requires
        atom_outcome_for(text_vaddr, text, rela, files, f, o),
        o.outcome is Reduced,
    ensures
        forall|j: int| 0 <= j < files.len() ==> !masked_match(#[trigger] files[j].1, o.outcome->0.bytes@),
{
    let m = choose|m: Option<MaskedAtom>|
        #[trigger] masked_atom_for(text_vaddr, text, rela, f.start, f.end, m) && match m {
            None => o.outcome is Unavailable,
            Some(a) => exists|r: Option<ReducedAtom>|
                #[trigger] is_reduction(files, a.bytes@, r) && match r {
                    None => o.outcome is Dropped,
                    Some(ra) => o.outcome == AtomOutcome::Reduced(ra),
                },
        };
    let a = m.unwrap();
    let r = choose|r: Option<ReducedAtom>|
        #[trigger] is_reduction(files, a.bytes@, r) && match r {
            None => o.outcome is Dropped,
            Some(ra) => o.outcome == AtomOutcome::Reduced(ra),
        };
    let ra = r.unwrap();
    assert(survives(files, a.bytes@, ra.start_offset as int));
    assert forall|j: int| 0 <= j < files.len() implies !masked_match(#[trigger] files[j].1, o.outcome->0.bytes@) by {
        assert(!collides(files, window_at(a.bytes@, ra.start_offset as int)));
    }
}

/// No masked code atom that a Tier 1 rule keeps matches any file of the
/// corpus it was reduced against: a kept atom is always a clean window.
pub proof fn lemma_kept_atoms_absent_from_corpus(
    text_vaddr: u64,
    text: Seq<u8>,
    rela: Seq<RelaRelative>,
    files: Seq<(Seq<char>, Seq<u8>)>,
    functions: Seq<FnRange>,
    strong: Seq<usize>,
    atoms: Seq<FnAtom>,
    m: int,
    kept: Seq<(Seq<char>, u64)>,
)
    requires
        atoms.len() == strong.len(),
        0 <= m <= atoms.len(),
        forall|k: int|
            0 <= k < atoms.len() ==> atom_outcome_for(
                text_vaddr,
                text,
                rela,
                files,
                functions[strong[k] as int],
                #[trigger] atoms[k],
            ),
    ensures
        forall|i: int, j: int|
            0 <= i < independent_atoms(atoms, m, kept).len() && 0 <= j < files.len() ==> !masked_match(
                #[trigger] files[j].1,
                (#[trigger] independent_atoms(atoms, m, kept)[i]).1,
            ),
    decreases m,
{
    if m > 0 {
        let prev = independent_atoms(atoms, m - 1, kept);
        let cur = independent_atoms(atoms, m, kept);
        lemma_kept_atoms_absent_from_corpus(text_vaddr, text, rela, files, functions, strong, atoms, m - 1, kept);
        let o = atoms[m - 1];
        if o.outcome is Reduced {
            lemma_reduced_outcome_is_clean(text_vaddr, text, rela, files, functions[strong[m - 1] as int], o);
        }
        assert forall|i: int, j: int| 0 <= i < cur.len() && 0 <= j < files.len() implies !masked_match(
            #[trigger] files[j].1,
            (#[trigger] cur[i]).1,
        ) by {
            if i < prev.len() {
                assert(cur[i] == prev[i]);
            }
        }
    }
}

/// Every kept behavioral string is rare: it occurs in no corpus file.
pub proof fn lemma_kept_strings_are_rare(
    cands: Seq<Candidate>,
    raw: Seq<(Seq<char>, u64)>,
    files: Seq<(Seq<char>, Seq<u8>)>,
    m: int,
)
    requires
        candidates_from(cands, raw, files),
        0 <= m <= cands.len(),
    ensures
        forall|k: int| 0 <= k < kept_strings(cands, m).len() ==> is_rare(files, (#[trigger] kept_strings(cands, m)[k]).0),
    decreases m,
{
    if m > 0 {
        let prev = kept_strings(cands, m - 1);
        let cur = kept_strings(cands, m);
        lemma_kept_strings_are_rare(cands, raw, files, m - 1);
        assert forall|k: int| 0 <= k < cur.len() implies is_rare(files, (#[trigger] cur[k]).0) by {
            if k < prev.len() {
                assert(cur[k] == prev[k]);
            } else {
                assert(cands[m - 1].rare);
            }
        }
    }
}

} // verus!
