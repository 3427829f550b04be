use vstd::prelude::*;

use crate::mask::{num_exact, MaskByte, MaskedAtom};
use vstd::string::StringSliceAdditionalSpecFns;
use vstd::utf8::encode_utf8;

verus! {

/// `pat[s..s + l]` lies inside `pat` and holds only exact bytes.
pub open spec fn exact_span(pat: Seq<MaskByte>, s: int, l: int) -> bool {
    &&& 0 <= s
    &&& 0 <= l
    &&& s + l <= pat.len()
    &&& forall|k: int| s <= k < s + l ==> (#[trigger] pat[k]) is Exact
}

/// `pat` holds at least one exact byte.
pub open spec fn has_exact(pat: Seq<MaskByte>) -> bool {
    exists|k: int| 0 <= k < pat.len() && (#[trigger] pat[k]) is Exact
}

/// `(off, bytes)` is the longest contiguous run of exact bytes in `pat`,
/// the leftmost one among runs of that length.
pub open spec fn is_longest_exact_run(pat: Seq<MaskByte>, off: int, bytes: Seq<u8>) -> bool {
    &&& bytes.len() >= 1
    &&& exact_span(pat, off, bytes.len() as int)
    &&& forall|k: int| 0 <= k < bytes.len() ==> pat[off + k] == MaskByte::Exact(#[trigger] bytes[k])
    &&& forall|s: int, l: int| #[trigger] exact_span(pat, s, l) ==> l <= bytes.len()
    &&& forall|s: int| 0 <= s < off ==> !exact_span(pat, s, bytes.len() as int)
}

/// No exact run crosses the boundary between `pat[i - 1]` and `pat[i]`.
spec fn run_boundary(pat: Seq<MaskByte>, i: int) -> bool {
    0 < i < pat.len() ==> !(pat[i - 1] is Exact && pat[i] is Exact)
}

/// A span that crosses no run boundary at `b` lies wholly on one side of it.
proof fn lemma_span_side(pat: Seq<MaskByte>, b: int, s: int, l: int)
    requires
        0 <= b <= pat.len(),
        run_boundary(pat, b),
        exact_span(pat, s, l),
        l >= 1,
        b < pat.len() ==> pat[b] is Exact,
    ensures
        s + l <= b || s >= b,
{
    if s < b && s + l > b {
        assert(pat[b - 1] is Exact);
        assert(pat[b] is Exact);
    }
}

/// The longest contiguous run of `Exact` bytes in `pat`, as `(offset, bytes)`,
/// leftmost on ties; `None` iff `pat` is all wildcards.
pub fn longest_exact_run(pat: &[MaskByte]) -> (r: Option<(usize, Vec<u8>)>)
    ensures
        r is None <==> !has_exact(pat@),
        r matches Some((off, bytes)) ==> is_longest_exact_run(pat@, off as int, bytes@),
{
    let n = pat.len();
    let mut best: Option<(usize, usize)> = None;
    let mut i: usize = 0;
    while i < n
        invariant
            n == pat@.len(),
            i <= n,
            run_boundary(pat@, i as int),
            best is None <==> forall|k: int| 0 <= k < i ==> (#[trigger] pat@[k]) is Wildcard,
            best matches Some((bs, bl)) ==> {
                &&& bl >= 1
                &&& bs + bl <= i
                &&& exact_span(pat@, bs as int, bl as int)
                &&& forall|s: int, l: int|
                    #[trigger] exact_span(pat@, s, l) && s + l <= i ==> l <= bl
                &&& forall|s: int| 0 <= s < bs ==> !exact_span(pat@, s, bl as int)
            },
        decreases n - i,
    {
        if matches!(pat[i], MaskByte::Exact(_)) {
            let start = i;
            while i < n && matches!(pat[i], MaskByte::Exact(_))
                invariant
                    n == pat@.len(),
                    start < i || start == i,
                    i <= n,
                    forall|k: int| start <= k < i ==> (#[trigger] pat@[k]) is Exact,
                decreases n - i,
            {
                i += 1;
            }
            let len = i - start;
            proof {
                assert(pat@[start as int] is Exact);
                assert(exact_span(pat@, start as int, len as int));
                // Every span ending past `start` lies inside the new run.
                assert forall|s: int, l: int|
                    #[trigger] exact_span(pat@, s, l) && s + l <= i && s + l > start && l >= 1
                    implies s >= start && l <= len by {
                    lemma_span_side(pat@, start as int, s, l);
                }
            }
            let take = match best {
                None => true,
                Some((_, best_len)) => len > best_len,
            };
            if take {
                proof {
                    assert forall|s: int| 0 <= s < start implies !exact_span(pat@, s, len as int) by {
                        if exact_span(pat@, s, len as int) {
                            if s + len > start {
                                lemma_span_side(pat@, start as int, s, len as int);
                            } else if best is None {
                                assert(pat@[s] is Exact);
                            }
                        }
                    }
                    assert forall|s: int, l: int|
                        #[trigger] exact_span(pat@, s, l) && s + l <= i implies l <= len by {
                        if l >= 1 && s + l <= start && best is None {
                            assert(pat@[s] is Exact);
                        }
                    }
                }
                best = Some((start, len));
            }
            proof {
                if i < n {
                    assert(!(pat@[i as int] is Exact));
                }
            }
        } else {
            i += 1;
        }
    }
    match best {
        None => None,
        Some((start, len)) => {
            let mut bytes: Vec<u8> = Vec::new();
            let mut j: usize = 0;
            while j < len
                invariant
                    n == pat@.len(),
                    start + len <= n,
                    exact_span(pat@, start as int, len as int),
                    j <= len,
                    bytes@.len() == j,
                    forall|k: int| 0 <= k < j ==> pat@[start + k] == MaskByte::Exact(#[trigger] bytes@[k]),
                decreases len - j,
            {
                assert(pat@[start + j] is Exact);
                match pat[start + j] {
                    MaskByte::Exact(v) => bytes.push(v),
                    MaskByte::Wildcard => {},
                }
                j += 1;
            }
            proof {
                assert(pat@[start as int] is Exact);
            }
            Some((start, bytes))
        }
    }
}


/// `needle` occurs in `hay` starting at index `i`.
pub open spec fn occurs_at(hay: Seq<u8>, needle: Seq<u8>, i: int) -> bool {
    &&& 0 <= i
    &&& i + needle.len() <= hay.len()
    &&& hay.subrange(i, i + needle.len()) == needle
}

/// `hay` contains the non-empty byte string `needle`.
pub open spec fn contains_bytes(hay: Seq<u8>, needle: Seq<u8>) -> bool {
    needle.len() > 0 && exists|i: int| occurs_at(hay, needle, i)
}

/// `memchr::memmem::find`: the index of the first occurrence of `needle` in
/// `hay`, or `None` when it does not occur. The contract claims exactly the
/// behaviour its documentation gives: the first (lowest) index at which the
/// needle occurs.
#[verifier::external_body]
fn memmem_find(hay: &[u8], needle: &[u8]) -> (r: Option<usize>)
    ensures
        r matches Some(i) ==> occurs_at(hay@, needle@, i as int),
        r matches Some(i) ==> forall|j: int| 0 <= j < i ==> !occurs_at(hay@, needle@, j),
        r is None ==> forall|j: int| !occurs_at(hay@, needle@, j),
{
    memchr::memmem::find(hay, needle)
}

/// Substring test: an empty needle, or one longer than the haystack, never matches.
pub fn contains_subslice(hay: &[u8], needle: &[u8]) -> (r: bool)
    ensures
        r == contains_bytes(hay@, needle@),
{
    if needle.len() == 0 || needle.len() > hay.len() {
        return false;
    }
    memmem_find(hay, needle).is_some()
}

/// Masked pattern `pat` matches `hay` at `start` (wildcards match any byte).
pub open spec fn matches_at(hay: Seq<u8>, pat: Seq<MaskByte>, start: int) -> bool {
    &&& 0 <= start
    &&& start + pat.len() <= hay.len()
    &&& forall|i: int|
        0 <= i < pat.len() ==> match #[trigger] pat[i] {
            MaskByte::Exact(b) => hay[start + i] == b,
            MaskByte::Wildcard => true,
        }
}

/// Wildcard-aware search: `pat` holds an exact byte and matches somewhere in `hay`.
/// An all-wildcard pattern discriminates nothing and never matches.
pub open spec fn masked_match(hay: Seq<u8>, pat: Seq<MaskByte>) -> bool {
    has_exact(pat) && exists|s: int| matches_at(hay, pat, s)
}

/// A match of `pat` at `s` puts the pattern's exact run at `s + off` in `hay`.
proof fn lemma_match_contains_run(hay: Seq<u8>, pat: Seq<MaskByte>, off: int, run: Seq<u8>, s: int)
    requires
        matches_at(hay, pat, s),
        exact_span(pat, off, run.len() as int),
        forall|k: int| 0 <= k < run.len() ==> pat[off + k] == MaskByte::Exact(#[trigger] run[k]),
    ensures
        occurs_at(hay, run, s + off),
{
    assert forall|k: int| 0 <= k < run.len() implies hay.subrange(s + off, s + off + run.len())[k]
        == run[k] by {
        assert(pat[off + k] == MaskByte::Exact(run[k]));
    }
    assert(hay.subrange(s + off, s + off + run.len()) =~= run);
}

/// Compare `pat` against `hay` at `start` byte by byte.
fn matches_window(hay: &[u8], pat: &[MaskByte], start: usize) -> (r: bool)
    requires
        start + pat@.len() <= hay@.len(),
    ensures
        r == matches_at(hay@, pat@, start as int),
{
    let mut i: usize = 0;
    while i < pat.len()
        invariant
            start + pat@.len() <= hay@.len(),
            i <= pat@.len(),
            forall|k: int|
                0 <= k < i ==> match #[trigger] pat@[k] {
                    MaskByte::Exact(b) => hay@[start + k] == b,
                    MaskByte::Wildcard => true,
                },
        decreases pat@.len() - i,
    {
        assert(start + i < hay.len());
        match pat[i] {
            MaskByte::Exact(b) => {
                if hay[start + i] != b {
                    return false;
                }
            },
            MaskByte::Wildcard => {},
        }
        i += 1;
    }
    true
}

/// Wildcard-aware substring search: is `pat` present anywhere in `hay`?
///
/// Candidate window starts come from occurrences of the pattern's longest
/// exact run (any real match must contain it); the full compare runs only
/// there. Every occurrence is visited, overlapping ones included.
pub fn masked_match_anywhere(hay: &[u8], pat: &[MaskByte]) -> (r: bool)
    ensures
        r == masked_match(hay@, pat@),
{
    if pat.len() == 0 || pat.len() > hay.len() {
        proof {
            if has_exact(pat@) {
                assert forall|s: int| !matches_at(hay@, pat@, s) by {}
            }
        }
        return false;
    }
    let (run_off, run) = match longest_exact_run(pat) {
        Some(found) => found,
        None => return false,
    };
    let last_start = hay.len() - pat.len();
    let mut from: usize = 0;
    proof {
        assert(pat@[run_off as int] is Exact);
    }
    while from < hay.len()
        invariant
            hay@.len() >= pat@.len() > 0,
            has_exact(pat@),
            last_start == hay@.len() - pat@.len(),
            is_longest_exact_run(pat@, run_off as int, run@),
            from <= hay@.len(),
            forall|s: int| #[trigger] matches_at(hay@, pat@, s) ==> s + run_off >= from,
        decreases hay@.len() - from,
    {
        let rest = vstd::slice::slice_subrange(hay, from, hay.len());
        match memmem_find(rest, run.as_slice()) {
            None => {
                proof {
                    assert forall|s: int| !matches_at(hay@, pat@, s) by {
                        if matches_at(hay@, pat@, s) {
                            lemma_match_contains_run(hay@, pat@, run_off as int, run@, s);
                            let j = s + run_off - from;
                            assert(rest@.subrange(j, j + run@.len()) =~= hay@.subrange(
                                s + run_off,
                                s + run_off + run@.len(),
                            ));
                            assert(occurs_at(rest@, run@, j));
                        }
                    }
                }
                return false;
            },
            Some(rel) => {
                let hit = from + rel;
                proof {
                    assert(rest@.subrange(rel as int, rel + run@.len()) =~= hay@.subrange(
                        hit as int,
                        hit + run@.len(),
                    ));
                }
                if hit >= run_off {
                    let start = hit - run_off;
                    if start <= last_start && matches_window(hay, pat, start) {
                        return true;
                    }
                }
                proof {
                    assert forall|s: int| #[trigger] matches_at(hay@, pat@, s) implies s + run_off
                        >= hit + 1 by {
                        lemma_match_contains_run(hay@, pat@, run_off as int, run@, s);
                        if s + run_off < hit {
                            let j = s + run_off - from;
                            assert(rest@.subrange(j, j + run@.len()) =~= hay@.subrange(
                                s + run_off,
                                s + run_off + run@.len(),
                            ));
                            assert(occurs_at(rest@, run@, j));
                        }
                    }
                }
                from = hit + 1;
            },
        }
    }
    proof {
        assert forall|s: int| !matches_at(hay@, pat@, s) by {
            if matches_at(hay@, pat@, s) {
                lemma_match_contains_run(hay@, pat@, run_off as int, run@, s);
            }
        }
    }
    false
}


/// Reduced-atom length: 64 bytes of mostly-exact code is specific enough that a
/// benign collision is near-impossible, yet short enough to survive an edit
/// elsewhere in the function.
pub const REDUCED_LEN: usize = 64;

/// Minimum exact (non-wildcard) bytes for a window to count as discriminative.
pub const MIN_EXACT: usize = 16;

/// The benign corpus: named files, each with its raw bytes.
pub struct Corpus {
    files: Vec<(String, Vec<u8>)>,
}

/// A masked atom reduced to a discriminative window (see [`Corpus::reduce_atom`]).
#[derive(Debug, Clone)]
pub struct ReducedAtom {
    /// Offset of the window within the maximal (whole-function) atom.
    pub start_offset: usize,
    /// Length of the maximal (whole-function) atom.
    pub orig_len: usize,
    /// Exact (non-wildcard) byte count in the emitted window.
    pub exact_bytes: usize,
    pub bytes: Vec<MaskByte>,
}

impl View for Corpus {
    type V = Seq<(Seq<char>, Seq<u8>)>;

    closed spec fn view(&self) -> Seq<(Seq<char>, Seq<u8>)> {
        self.files@.map_values(|f: (String, Vec<u8>)| (f.0@, f.1@))
    }
}

/// Names of the files that `pat` matches, in corpus order.
pub open spec fn colliding_names(files: Seq<(Seq<char>, Seq<u8>)>, pat: Seq<MaskByte>) -> Seq<
    Seq<char>,
>
    decreases files.len(),
{
    if files.len() == 0 {
        Seq::empty()
    } else {
        let prev = colliding_names(files.drop_last(), pat);
        if masked_match(files.last().1, pat) {
            prev.push(files.last().0)
        } else {
            prev
        }
    }
}

/// The UTF-8 bytes of `text` occur in none of the corpus files.
pub open spec fn is_rare(files: Seq<(Seq<char>, Seq<u8>)>, text: Seq<char>) -> bool {
    forall|k: int| 0 <= k < files.len() ==> !contains_bytes(#[trigger] files[k].1, encode_utf8(text))
}

/// Some corpus file matches `pat`.
pub open spec fn collides(files: Seq<(Seq<char>, Seq<u8>)>, pat: Seq<MaskByte>) -> bool {
    exists|k: int| 0 <= k < files.len() && masked_match(#[trigger] files[k].1, pat)
}

/// Length of the reduction window for an atom of `n` bytes.
pub open spec fn window_len(n: int) -> int {
    if REDUCED_LEN < n {
        REDUCED_LEN as int
    } else {
        n
    }
}

/// The reduction window of `bytes` starting at `off`.
pub open spec fn window_at(bytes: Seq<MaskByte>, off: int) -> Seq<MaskByte> {
    bytes.subrange(off, off + window_len(bytes.len() as int))
}

/// `off` starts a window with enough exact bytes to be worth testing.
pub open spec fn is_candidate(bytes: Seq<MaskByte>, off: int) -> bool {
    &&& 0 <= off <= bytes.len() - window_len(bytes.len() as int)
    &&& num_exact(window_at(bytes, off)) >= MIN_EXACT
}

/// `off` is a candidate whose window collides with no corpus file.
pub open spec fn survives(files: Seq<(Seq<char>, Seq<u8>)>, bytes: Seq<MaskByte>, off: int) -> bool {
    is_candidate(bytes, off) && !collides(files, window_at(bytes, off))
}

/// Window `a` is tried before window `b`: more exact bytes first, then lower offset.
pub open spec fn tried_before(bytes: Seq<MaskByte>, a: int, b: int) -> bool {
    let ea = num_exact(window_at(bytes, a));
    let eb = num_exact(window_at(bytes, b));
    ea > eb || (ea == eb && a < b)
}

/// `r` is the reduction of the atom `bytes` against the corpus `files`: the
/// surviving window tried first, or `None` when no window survives.
pub open spec fn is_reduction(files: Seq<(Seq<char>, Seq<u8>)>, bytes: Seq<MaskByte>, r: Option<ReducedAtom>) -> bool {
    &&& r is None <==> forall|off: int| !survives(files, bytes, off)
    &&& r matches Some(ra) ==> {
        &&& survives(files, bytes, ra.start_offset as int)
        &&& ra.bytes@ == window_at(bytes, ra.start_offset as int)
        &&& ra.orig_len == bytes.len()
        &&& ra.exact_bytes == num_exact(ra.bytes@)
        &&& forall|off: int|
            #[trigger] survives(files, bytes, off) && off != ra.start_offset ==> tried_before(
                bytes,
                ra.start_offset as int,
                off,
            )
    }
}

/// Number of exact bytes in a window.
pub fn count_exact(win: &[MaskByte]) -> (n: usize)
    ensures
        n == num_exact(win@),
{
    let mut n: usize = 0;
    let mut i: usize = 0;
    while i < win.len()
        invariant
            i <= win@.len(),
            n == num_exact(win@.take(i as int)),
            n <= i,
        decreases win@.len() - i,
    {
        assert(win@.take(i as int + 1).drop_last() =~= win@.take(i as int));
        if matches!(win[i], MaskByte::Exact(_)) {
            n = n + 1;
        }
        i = i + 1;
    }
    assert(win@.take(i as int) =~= win@);
    n
}

proof fn lemma_num_exact_bound(s: Seq<MaskByte>)
    ensures
        num_exact(s) <= s.len(),
    decreases s.len(),
{
    if s.len() > 0 {
        lemma_num_exact_bound(s.drop_last());
    }
}

impl Corpus {
    /// A corpus holding `files` (name and contents), in the given order.
    pub fn from_files(files: Vec<(String, Vec<u8>)>) -> (c: Corpus)
        ensures
            c@ == files@.map_values(|f: (String, Vec<u8>)| (f.0@, f.1@)),
    {
        Corpus { files }
    }

    /// Number of corpus files.
    pub fn len(&self) -> (n: usize)
        ensures
            n == self@.len(),
    {
        self.files.len()
    }

    /// A string is "rare" if it appears in none of the benign corpus files.
    pub fn string_is_rare(&self, s: &str) -> (r: bool)
        ensures
            r == is_rare(self@, s@),
    {
        let needle = s.as_bytes();
        let mut k: usize = 0;
        while k < self.files.len()
            invariant
                needle@ == s.spec_bytes(),
                k <= self@.len(),
                self@.len() == self.files@.len(),
                forall|j: int| 0 <= j < k ==> !contains_bytes(#[trigger] self@[j].1, s.spec_bytes()),
            decreases self.files@.len() - k,
        {
            assert(self@[k as int].1 == self.files@[k as int].1@);
            if contains_subslice(self.files[k].1.as_slice(), needle) {
                return false;
            }
            k += 1;
        }
        true
    }

    /// Names of corpus files a masked-hex atom collides with (empty = discriminative).
    pub fn masked_atom_collisions(&self, atom: &MaskedAtom) -> (names: Vec<String>)
        ensures
            names@.map_values(|n: String| n@) == colliding_names(self@, atom.bytes@),
    {
        let mut names: Vec<String> = Vec::new();
        let mut k: usize = 0;
        while k < self.files.len()
            invariant
                k <= self@.len(),
                self@.len() == self.files@.len(),
                names@.map_values(|n: String| n@) == colliding_names(
                    self@.take(k as int),
                    atom.bytes@,
                ),
            decreases self.files@.len() - k,
        {
            assert(self@.take(k as int + 1).drop_last() =~= self@.take(k as int));
            if masked_match_anywhere(self.files[k].1.as_slice(), atom.bytes.as_slice()) {
                names.push(self.files[k].0.clone());
            }
            assert(names@.map_values(|n: String| n@) =~= colliding_names(
                self@.take(k as int + 1),
                atom.bytes@,
            ));
            k += 1;
        }
        assert(self@.take(k as int) =~= self@);
        names
    }

    fn any_file_matches(&self, pat: &[MaskByte]) -> (r: bool)
        ensures
            r == collides(self@, pat@),
    {
        let mut k: usize = 0;
        while k < self.files.len()
            invariant
                k <= self@.len(),
                self@.len() == self.files@.len(),
                forall|j: int| 0 <= j < k ==> !masked_match(#[trigger] self@[j].1, pat@),
            decreases self.files@.len() - k,
        {
            assert(self@[k as int].1 == self.files@[k as int].1@);
            if masked_match_anywhere(self.files[k].1.as_slice(), pat) {
                return true;
            }
            k += 1;
        }
        false
    }

    /// Reduce a masked atom to its most exact-byte-dense [`REDUCED_LEN`]-byte
    /// window that is free of benign collisions. Windows are tried
    /// strongest-first (most exact bytes, then lowest offset), so the first
    /// survivor is the most discriminative. `None` = no window with at least
    /// [`MIN_EXACT`] exact bytes survives.
    pub fn reduce_atom(&self, atom: &MaskedAtom) -> (r: Option<ReducedAtom>)
        ensures
            is_reduction(self@, atom.bytes@, r),
    {
        let bytes = atom.bytes.as_slice();
        let n = bytes.len();
        let win_len = if REDUCED_LEN < n {
            REDUCED_LEN
        } else {
            n
        };
        let last = n - win_len;
        let mut counts: Vec<usize> = Vec::new();
        let mut off: usize = 0;
        while off <= last
            invariant
                bytes@ == atom.bytes@,
                n == bytes@.len(),
                win_len == window_len(n as int),
                last == n - win_len,
                off <= last + 1,
                counts@.len() == off,
                forall|j: int| 0 <= j < off ==> #[trigger] counts@[j] == num_exact(window_at(bytes@, j)),
            decreases last + 1 - off,
        {
            let win = vstd::slice::slice_subrange(bytes, off, off + win_len);
            counts.push(count_exact(win));
            off += 1;
        }
        let mut level: usize = win_len;
        proof {
            assert forall|j: int| 0 <= j <= last implies num_exact(window_at(bytes@, j)) <= level by {
                lemma_num_exact_bound(window_at(bytes@, j));
            }
        }
        while level >= MIN_EXACT
            invariant
                bytes@ == atom.bytes@,
                n == bytes@.len(),
                win_len == window_len(n as int),
                last == n - win_len,
                counts@.len() == last + 1,
                forall|j: int| 0 <= j <= last ==> #[trigger] counts@[j] == num_exact(window_at(bytes@, j)),
                forall|j: int| #[trigger] survives(self@, bytes@, j) ==> num_exact(window_at(bytes@, j)) <= level,
            decreases level,
        {
            let mut off: usize = 0;
            while off <= last
                invariant
                    bytes@ == atom.bytes@,
                    n == bytes@.len(),
                    win_len == window_len(n as int),
                    last == n - win_len,
                    level >= MIN_EXACT,
                    counts@.len() == last + 1,
                    off <= last + 1,
                    forall|j: int| 0 <= j <= last ==> #[trigger] counts@[j] == num_exact(window_at(bytes@, j)),
                    forall|j: int| #[trigger] survives(self@, bytes@, j) ==> num_exact(window_at(bytes@, j)) <= level,
                    forall|j: int| 0 <= j < off && #[trigger] survives(self@, bytes@, j) ==> num_exact(window_at(bytes@, j)) < level,
                decreases last + 1 - off,
            {
                if counts[off] == level {
                    let win = vstd::slice::slice_subrange(bytes, off, off + win_len);
                    if !self.any_file_matches(win) {
                        let ra = ReducedAtom {
                            start_offset: off,
                            orig_len: n,
                            exact_bytes: level,
                            bytes: vstd::slice::slice_to_vec(win),
                        };
                        proof {
                            assert(survives(self@, bytes@, off as int));
                        }
                        return Some(ra);
                    }
                }
                off += 1;
            }
            level -= 1;
        }
        None
    }
}


/// A pattern without an exact byte matches nothing, whatever the haystack.
pub proof fn lemma_all_wildcards_never_match(hay: Seq<u8>, pat: Seq<MaskByte>)
    requires
        forall|k: int| 0 <= k < pat.len() ==> #[trigger] pat[k] == MaskByte::Wildcard,
    ensures
        !masked_match(hay, pat),
{
}

/// A reduced atom is a window of the atom it came from, `REDUCED_LEN` bytes long
/// (or the whole atom when shorter), with at least `MIN_EXACT` exact bytes,
/// that matches no corpus file; and an atom is dropped only when every such
/// window collides with some corpus file.
pub proof fn lemma_reduction_is_discriminative(files: Seq<(Seq<char>, Seq<u8>)>, bytes: Seq<MaskByte>, r: Option<ReducedAtom>)
    requires
        is_reduction(files, bytes, r),
    ensures
        r matches Some(ra) ==> {
            &&& ra.start_offset + ra.bytes@.len() <= bytes.len()
            &&& ra.bytes@ == bytes.subrange(ra.start_offset as int, ra.start_offset + ra.bytes@.len())
            &&& ra.bytes@.len() == window_len(bytes.len() as int)
            &&& ra.exact_bytes >= MIN_EXACT
            &&& forall|k: int| 0 <= k < files.len() ==> !masked_match(#[trigger] files[k].1, ra.bytes@)
        },
        r is None ==> forall|off: int| #[trigger] is_candidate(bytes, off) ==> collides(files, window_at(bytes, off)),
{
    if r is None {
        assert forall|off: int| #[trigger] is_candidate(bytes, off) implies collides(files, window_at(bytes, off)) by {
            assert(!survives(files, bytes, off));
        }
    }
}

} // verus!
