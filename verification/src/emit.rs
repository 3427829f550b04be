//! YARA rule text.
use vstd::prelude::*;

use crate::code::CodeAtom;
use crate::mask::{MaskByte, MaskedAtom};
use crate::order::views;
use crate::text::{push_char, push_str};

verus! {

/// `s` with each backslash and double quote escaped by a backslash.
pub open spec fn escaped(s: Seq<char>) -> Seq<char>
    decreases s.len(),
{
    if s.len() == 0 {
        Seq::empty()
    } else {
        let c = s.last();
        let prev = escaped(s.drop_last());
        if c == '\\' || c == '"' {
            prev.push('\\').push(c)
        } else {
            prev.push(c)
        }
    }
}

/// Escape backslashes, then double quotes, for a YARA string literal.
pub fn escape_str(s: &str) -> (r: String)
    ensures
        r@ == escaped(s@),
{
    let mut out = String::new();
    for c in it: s.chars()
        invariant
            it.seq() == s@,
            out@ == escaped(s@.take(it.index() as int)),
    {
        proof {
            assert(s@.take(it.index() + 1).drop_last() =~= s@.take(it.index() as int));
        }
        if c == '\\' || c == '"' {
            push_char(&mut out, '\\');
        }
        push_char(&mut out, c);
    }
    proof {
        assert(s@.take(s@.len() as int) =~= s@);
    }
    out
}


/// Digit `d` (below 16) in lowercase hexadecimal.
pub open spec fn lower_digit(d: nat) -> char {
    if d < 10 {
        (48 + d) as char
    } else {
        (87 + d) as char
    }
}

/// Digit `d` (below 16) in uppercase hexadecimal.
pub open spec fn upper_digit(d: nat) -> char {
    if d < 10 {
        (48 + d) as char
    } else {
        (55 + d) as char
    }
}

/// `n` in decimal, without leading zeros.
pub open spec fn decimal(n: nat) -> Seq<char>
    decreases n,
{
    if n < 10 {
        seq![lower_digit(n)]
    } else {
        decimal(n / 10).push(lower_digit(n % 10))
    }
}

/// `n` in lowercase hexadecimal, without leading zeros.
pub open spec fn hex_lower(n: nat) -> Seq<char>
    decreases n,
{
    if n < 16 {
        seq![lower_digit(n)]
    } else {
        hex_lower(n / 16).push(lower_digit(n % 16))
    }
}

/// Byte `b` as two uppercase hexadecimal digits.
pub open spec fn hex_pair(b: u8) -> Seq<char> {
    seq![upper_digit(b as nat / 16), upper_digit(b as nat % 16)]
}

/// Space-separated uppercase hex pairs of `bytes`.
pub open spec fn hex_text(bytes: Seq<u8>) -> Seq<char>
    decreases bytes.len(),
{
    if bytes.len() == 0 {
        Seq::empty()
    } else if bytes.len() == 1 {
        hex_pair(bytes[0])
    } else {
        hex_text(bytes.drop_last()) + seq![' '] + hex_pair(bytes.last())
    }
}

/// A masked byte: its hex pair, or `??` for a wildcard.
pub open spec fn mask_pair(b: MaskByte) -> Seq<char> {
    match b {
        MaskByte::Exact(v) => hex_pair(v),
        MaskByte::Wildcard => seq!['?', '?'],
    }
}

/// Space-separated pairs of a masked atom.
pub open spec fn masked_text(bytes: Seq<MaskByte>) -> Seq<char>
    decreases bytes.len(),
{
    if bytes.len() == 0 {
        Seq::empty()
    } else if bytes.len() == 1 {
        mask_pair(bytes[0])
    } else {
        masked_text(bytes.drop_last()) + seq![' '] + mask_pair(bytes.last())
    }
}

/// An ASCII letter, digit or underscore.
pub open spec fn is_ident_char(c: char) -> bool {
    ('0' <= c && c <= '9') || ('a' <= c && c <= 'z') || ('A' <= c && c <= 'Z') || c == '_'
}

/// Each character that may not appear in an identifier replaced by `_`.
pub open spec fn ident_chars(s: Seq<char>) -> Seq<char> {
    s.map_values(|c: char| if is_ident_char(c) { c } else { '_' })
}

/// A YARA identifier made from `s`: non-identifier characters become `_`, a
/// leading digit gets a `_` prefix, and an empty `s` gives `winnow_rule`.
pub open spec fn sanitized(s: Seq<char>) -> Seq<char> {
    if s.len() == 0 {
        "winnow_rule"@
    } else if '0' <= s[0] && s[0] <= '9' {
        seq!['_'] + ident_chars(s)
    } else {
        ident_chars(s)
    }
}

pub(crate) fn lower_digit_char(d: u64) -> (c: char)
    requires
        d < 16,
    ensures
        c == lower_digit(d as nat),
{
    let v: u8 = if d < 10 {
        48 + d as u8
    } else {
        87 + d as u8
    };
    v as char
}

fn upper_digit_char(d: u8) -> (c: char)
    requires
        d < 16,
    ensures
        c == upper_digit(d as nat),
{
    let v: u8 = if d < 10 {
        48 + d
    } else {
        55 + d
    };
    v as char
}

/// Append `n` in decimal.
pub fn push_decimal(out: &mut String, n: u64)
    ensures
        final(out)@ == old(out)@ + decimal(n as nat),
    decreases n,
{
    if n >= 10 {
        push_decimal(out, n / 10);
    }
    push_char(out, lower_digit_char(n % 10));
}

/// Append `n` in lowercase hexadecimal.
pub fn push_hex_lower(out: &mut String, n: u64)
    ensures
        final(out)@ == old(out)@ + hex_lower(n as nat),
    decreases n,
{
    if n >= 16 {
        push_hex_lower(out, n / 16);
    }
    push_char(out, lower_digit_char(n % 16));
}

fn push_hex_pair(out: &mut String, b: u8)
    ensures
        final(out)@ == old(out)@ + hex_pair(b),
{
    push_char(out, upper_digit_char(b / 16));
    push_char(out, upper_digit_char(b % 16));
}

/// Space-separated uppercase hex pairs, e.g. `00 FF 1A`.
pub fn hex_bytes(bytes: &[u8]) -> (r: String)
    ensures
        r@ == hex_text(bytes@),
{
    let mut out = String::new();
    let mut i: usize = 0;
    while i < bytes.len()
        invariant
            i <= bytes@.len(),
            out@ == hex_text(bytes@.take(i as int)),
        decreases bytes@.len() - i,
    {
        assert(bytes@.take(i as int + 1).drop_last() =~= bytes@.take(i as int));
        if i > 0 {
            push_char(&mut out, ' ');
        }
        push_hex_pair(&mut out, bytes[i]);
        i += 1;
    }
    assert(bytes@.take(i as int) =~= bytes@);
    out
}

/// The mask bytes that hold exactly `bytes`.
pub open spec fn all_exact(bytes: Seq<u8>) -> Seq<MaskByte> {
    bytes.map_values(|b: u8| MaskByte::Exact(b))
}

/// Masked text agrees with plain hex text where nothing is masked: an atom of
/// exact bytes is written exactly as those bytes are; a lone wildcard is
/// written `??`, and nothing is written for no bytes.
pub proof fn lemma_masked_text_of_exact(bytes: Seq<u8>)
    ensures
        masked_text(all_exact(bytes)) == hex_text(bytes),
        masked_text(seq![MaskByte::Wildcard]) == seq!['?', '?'],
        masked_text(Seq::<MaskByte>::empty()) == Seq::<char>::empty(),
    decreases bytes.len(),
{
    if bytes.len() > 1 {
        lemma_masked_text_of_exact(bytes.drop_last());
        assert(all_exact(bytes).drop_last() =~= all_exact(bytes.drop_last()));
    }
}

/// Masked text of two non-empty atoms written one after the other is the
/// text of each, joined by a space.
pub proof fn lemma_masked_text_concat(p: Seq<MaskByte>, q: Seq<MaskByte>)
    requires
        p.len() > 0,
        q.len() > 0,
    ensures
        masked_text(p + q) == masked_text(p) + seq![' '] + masked_text(q),
    decreases q.len(),
{
    assert((p + q).drop_last() =~= p + q.drop_last());
    assert((p + q).last() == q.last());
    if q.len() == 1 {
        assert(p + q.drop_last() =~= p);
        assert(masked_text(q) == mask_pair(q[0]));
    } else {
        lemma_masked_text_concat(p, q.drop_last());
        assert(masked_text(p + q) =~= masked_text(p) + seq![' '] + masked_text(q));
    }
}

/// Space-separated pairs of a masked atom, `??` for each wildcard.
pub fn hex_masked(bytes: &[MaskByte]) -> (r: String)
    ensures
        r@ == masked_text(bytes@),
{
    let mut out = String::new();
    let mut i: usize = 0;
    while i < bytes.len()
        invariant
            i <= bytes@.len(),
            out@ == masked_text(bytes@.take(i as int)),
        decreases bytes@.len() - i,
    {
        assert(bytes@.take(i as int + 1).drop_last() =~= bytes@.take(i as int));
        if i > 0 {
            push_char(&mut out, ' ');
        }
        match bytes[i] {
            MaskByte::Exact(v) => push_hex_pair(&mut out, v),
            MaskByte::Wildcard => {
                push_char(&mut out, '?');
                push_char(&mut out, '?');
            },
        }
        i += 1;
    }
    assert(bytes@.take(i as int) =~= bytes@);
    out
}

/// A YARA identifier made from `s` (see [`sanitized`]).
pub fn sanitize_ident(s: &str) -> (r: String)
    ensures
        r@ == sanitized(s@),
{
    let mut out = String::new();
    let mut leading_digit = false;
    let mut first = true;
    for c in it: s.chars()
        invariant
            it.seq() == s@,
            first == (it.index() == 0),
            out@ == ident_chars(s@.take(it.index() as int)),
            leading_digit == (it.index() > 0 && '0' <= s@[0] && s@[0] <= '9'),
    {
        proof {
            assert(ident_chars(s@.take(it.index() + 1)) =~= ident_chars(s@.take(it.index() as int)).push(
                if is_ident_char(c) { c } else { '_' },
            ));
        }
        if ('0' <= c && c <= '9') || ('a' <= c && c <= 'z') || ('A' <= c && c <= 'Z') || c == '_' {
            push_char(&mut out, c);
        } else {
            push_char(&mut out, '_');
        }
        if first && '0' <= c && c <= '9' {
            leading_digit = true;
        }
        first = false;
    }
    proof {
        assert(s@.take(s@.len() as int) =~= s@);
    }
    if s.is_empty() {
        let mut fallback = String::new();
        push_str(&mut fallback, "winnow_rule");
        return fallback;
    }
    if leading_digit {
        let mut prefixed = String::new();
        push_char(&mut prefixed, '_');
        push_str(&mut prefixed, out.as_str());
        assert(prefixed@ =~= seq!['_'] + ident_chars(s@));
        return prefixed;
    }
    out
}


/// A rule name is always a valid identifier: non-empty, made only of ASCII
/// letters, digits and underscores, and not starting with a digit.
pub proof fn lemma_sanitized_is_identifier(s: Seq<char>)
    ensures
        sanitized(s).len() > 0,
        forall|i: int| 0 <= i < sanitized(s).len() ==> is_ident_char(#[trigger] sanitized(s)[i]),
        !('0' <= sanitized(s)[0] && sanitized(s)[0] <= '9'),
{
    if s.len() == 0 {
        reveal_strlit("winnow_rule");
    } else if '0' <= s[0] && s[0] <= '9' {
        assert forall|i: int| 0 <= i < sanitized(s).len() implies is_ident_char(#[trigger] sanitized(s)[i]) by {
            if i > 0 {
                assert(sanitized(s)[i] == ident_chars(s)[i - 1]);
            }
        }
    }
}

/// In an escaped string every double quote is preceded by a backslash, so
/// the text cannot close the YARA string literal it is written into.
pub proof fn lemma_escaped_quotes_are_escaped(s: Seq<char>)
    ensures
        forall|i: int| 0 <= i < escaped(s).len() && #[trigger] escaped(s)[i] == '"' ==> i > 0 && escaped(s)[i - 1] == '\\',
    decreases s.len(),
{
    if s.len() > 0 {
        let prev = escaped(s.drop_last());
        lemma_escaped_quotes_are_escaped(s.drop_last());
        let e = escaped(s);
        assert forall|i: int| 0 <= i < e.len() && #[trigger] e[i] == '"' implies i > 0 && e[i - 1] == '\\' by {
            if i < prev.len() {
                assert(e[i] == prev[i]);
                assert(prev[i] == '"');
                assert(e[i - 1] == prev[i - 1]);
            }
        }
    }
}

/// Undo YARA string escaping, left to right: a backslash and the character
/// after it stand for that character; any other character stands for itself.
pub open spec fn unescaped(e: Seq<char>) -> Seq<char>
    decreases e.len(),
{
    if e.len() == 0 {
        Seq::empty()
    } else if e[0] == '\\' && e.len() >= 2 {
        seq![e[1]] + unescaped(e.subrange(2, e.len() as int))
    } else {
        seq![e[0]] + unescaped(e.drop_first())
    }
}

/// Escaping a concatenation escapes each part.
proof fn lemma_escaped_append(a: Seq<char>, b: Seq<char>)
    ensures
        escaped(a + b) == escaped(a) + escaped(b),
    decreases b.len(),
{
    if b.len() == 0 {
        assert(a + b =~= a);
        assert(escaped(a) + escaped(b) =~= escaped(a));
    } else {
        assert((a + b).drop_last() =~= a + b.drop_last());
        assert((a + b).last() == b.last());
        lemma_escaped_append(a, b.drop_last());
        let c = b.last();
        if c == '\\' || c == '"' {
            assert(escaped(a + b) =~= escaped(a) + escaped(b));
        } else {
            assert(escaped(a + b) =~= escaped(a) + escaped(b));
        }
    }
}

/// Escaping loses nothing: unescaping the escaped text, left to right,
/// gives back exactly the original text.
pub proof fn lemma_escaped_round_trip(s: Seq<char>)
    ensures
        unescaped(escaped(s)) == s,
    decreases s.len(),
{
    if s.len() > 0 {
        let c = s[0];
        let t = s.drop_first();
        assert(s =~= seq![c] + t);
        lemma_escaped_append(seq![c], t);
        assert(seq![c].drop_last() =~= Seq::<char>::empty());
        assert(escaped(seq![c].drop_last()) =~= Seq::<char>::empty());
        assert(seq![c].last() == c);
        lemma_escaped_round_trip(t);
        let e = escaped(s);
        if c == '\\' || c == '"' {
            assert(escaped(seq![c]) =~= seq!['\\', c]);
            assert(e.subrange(2, e.len() as int) =~= escaped(t));
            assert(unescaped(e) =~= seq![c] + unescaped(escaped(t)));
        } else {
            assert(escaped(seq![c]) =~= seq![c]);
            assert(e.drop_first() =~= escaped(t));
            assert(unescaped(e) =~= seq![c] + unescaped(escaped(t)));
        }
        assert(unescaped(e) =~= s);
    }
}

/// What a Tier 2 rule rests on, as written into its `meta`.
pub const TIER2_RESTS_ON: &'static str = "    rests_on = \"author panic-path strings (unhusk anchor_files, confirming-tier attribution) AND boundary-free call-site code atoms (unmasked, exact-byte, self-consistent for on-disk file scanning). No independence resolver, no rarity filter, no per-function masked hex — those are Phase 3, gated on the benign-corpus FP measurement (Phase 2). This is a Tier 2 (strings-dominant) rule, not the Tier 1 flagship.\"\n";

/// Opening of the Tier 1 `independence` meta line.
pub const INDEPENDENCE_HEAD: &'static str = "    independence = \"structural: code factor from function(s) ";

/// Between the two function sets of the `independence` meta line.
pub const INDEPENDENCE_MID: &'static str = "; string factor from function(s) ";

/// Close of the `independence` meta line.
pub const INDEPENDENCE_TAIL: &'static str = ". The two function sets are disjoint, so any match of `any of ($mcode*) and any of ($behavior*)` necessarily pairs a masked code atom and a behavioral string from DIFFERENT functions — the §6 independence the FP argument multiplies over is enforced by construction, not asserted.\"\n";

/// What a Tier 1 rule rests on, as written into its `meta`.
pub const TIER1_RESTS_ON: &'static str = "    rests_on = \"masked-hex code factor (relocation-patched operands, RIP-relative displacements, and 64-bit absolute immediates masked; substring-reduced against the benign corpus, architecture critique finding 2) AND an independent non-panic author-data string (rarity-filtered against the same corpus), drawn from a disjoint set of functions (see independence). Panic-path strings are confirming only (architecture section 6) and are listed above in meta, not required by this rule's condition, so they are never double-counted as independent evidence.\"\n";

/// The inputs of a Tier 2 rule.
pub struct RuleInputs<'a> {
    pub sample_name: &'a str,
    pub sample_path: &'a str,
    pub sample_sha256: String,
    pub min_anchors: usize,
    pub strong_fn_count: usize,
    pub anchor_strings: Vec<String>,
    pub code_atoms: Vec<CodeAtom>,
}

/// The inputs of a Tier 1 rule. Its condition requires the masked-code factor
/// and the independent behavioral-data factor; panic strings appear only in
/// `meta`, so they are never double-counted as evidence.
pub struct Tier1Inputs<'a> {
    pub sample_name: &'a str,
    pub sample_path: &'a str,
    pub sample_sha256: String,
    pub min_anchors: usize,
    pub strong_fn_count: usize,
    pub panic_strings: Vec<String>,
    pub masked_atoms: Vec<MaskedAtom>,
    /// `(text, fn_start)` per kept behavioral string, drawn from functions
    /// disjoint from those of `masked_atoms`.
    pub behavior_strings: Vec<(String, u64)>,
    pub corpus_size: usize,
}

/// The `meta` lines common to both tiers, after the rule name.
pub open spec fn meta_head(generator: Seq<char>, tier: Seq<char>, name: Seq<char>, path: Seq<char>, sha: Seq<char>, min_anchors: usize, strong: usize) -> Seq<char> {
    "  meta:\n"@ + "    generator = \""@ + generator + "\"\n"@ + "    tier = \""@ + tier + "\"\n"@
        + "    sample = \""@ + escaped(name) + "\"\n"@ + "    sample_path = \""@ + escaped(path) + "\"\n"@
        + "    sample_sha256 = \""@ + sha + "\"\n"@ + "    min_anchors = "@ + decimal(min_anchors as nat) + "\n"@
        + "    strong_functions = "@ + decimal(strong as nat) + "\n"@
}

/// `$panic<i>` string definitions.
pub open spec fn panic_defs(strs: Seq<Seq<char>>) -> Seq<char>
    decreases strs.len(),
{
    if strs.len() == 0 {
        Seq::empty()
    } else {
        panic_defs(strs.drop_last()) + "    $panic"@ + decimal((strs.len() - 1) as nat) + " = \""@ + escaped(strs.last())
            + "\" ascii\n"@
    }
}

/// `$code<i>` hex definitions.
pub open spec fn code_defs(atoms: Seq<CodeAtom>) -> Seq<char>
    decreases atoms.len(),
{
    if atoms.len() == 0 {
        Seq::empty()
    } else {
        code_defs(atoms.drop_last()) + "    $code"@ + decimal((atoms.len() - 1) as nat) + " = { "@ + hex_text(atoms.last().bytes@)
            + " } // fn 0x"@ + hex_lower(atoms.last().fn_start as nat) + "\n"@
    }
}

/// The text of the Tier 2 rule for `inp`.
pub open spec fn tier2_rule_text(inp: RuleInputs) -> Seq<char> {
    "rule "@ + sanitized("winnow_"@ + inp.sample_name@) + " {\n"@ + meta_head(
        "winnow-phase1"@,
        "2"@,
        inp.sample_name@,
        inp.sample_path@,
        inp.sample_sha256@,
        inp.min_anchors,
        inp.strong_fn_count,
    ) + TIER2_RESTS_ON@ + "  strings:\n"@ + panic_defs(views(inp.anchor_strings@)) + code_defs(inp.code_atoms@)
        + "  condition:\n"@ + "    uint32(0) == 0x464c457f and any of ($panic*) and any of ($code*)\n"@ + "}\n"@
}

fn push_meta_head(out: &mut String, generator: &str, tier: &str, name: &str, path: &str, sha: &String, min_anchors: usize, strong: usize)
    ensures
        final(out)@ =~= old(out)@ + meta_head(generator@, tier@, name@, path@, sha@, min_anchors, strong),
{
    push_str(out, "  meta:\n");
    push_str(out, "    generator = \"");
    push_str(out, generator);
    push_str(out, "\"\n");
    push_str(out, "    tier = \"");
    push_str(out, tier);
    push_str(out, "\"\n");
    push_str(out, "    sample = \"");
    push_str(out, escape_str(name).as_str());
    push_str(out, "\"\n");
    push_str(out, "    sample_path = \"");
    push_str(out, escape_str(path).as_str());
    push_str(out, "\"\n");
    push_str(out, "    sample_sha256 = \"");
    push_str(out, sha.as_str());
    push_str(out, "\"\n");
    push_str(out, "    min_anchors = ");
    push_decimal(out, min_anchors as u64);
    push_str(out, "\n");
    push_str(out, "    strong_functions = ");
    push_decimal(out, strong as u64);
    push_str(out, "\n");
}

/// The rule name for a sample: `prefix` and the sample name, sanitized.
fn rule_name(prefix: &str, sample_name: &str) -> (r: String)
    ensures
        r@ == sanitized(prefix@ + sample_name@),
{
    let mut raw = String::new();
    push_str(&mut raw, prefix);
    push_str(&mut raw, sample_name);
    sanitize_ident(raw.as_str())
}

/// `t` occurs somewhere in `s` as a contiguous run.
pub open spec fn occurs_in(s: Seq<char>, t: Seq<char>) -> bool {
    exists|i: int| 0 <= i && i + t.len() <= s.len() && #[trigger] s.subrange(i, i + t.len()) == t
}

/// Every text is a run of itself.
pub proof fn lemma_occurs_in_self(t: Seq<char>)
    ensures
        occurs_in(t, t),
{
    assert(t.subrange(0, 0 + t.len() as int) =~= t);
}

/// A run of `a` is a run of `a + b`.
pub proof fn lemma_occurs_in_prefix(a: Seq<char>, b: Seq<char>, t: Seq<char>)
    requires
        occurs_in(a, t),
    ensures
        occurs_in(a + b, t),
{
    let i = choose|i: int| 0 <= i && i + t.len() <= a.len() && #[trigger] a.subrange(i, i + t.len()) == t;
    assert((a + b).subrange(i, i + t.len()) =~= a.subrange(i, i + t.len()));
}

/// A run of `b` is a run of `a + b`.
pub proof fn lemma_occurs_in_suffix(a: Seq<char>, b: Seq<char>, t: Seq<char>)
    requires
        occurs_in(b, t),
    ensures
        occurs_in(a + b, t),
{
    let i = choose|i: int| 0 <= i && i + t.len() <= b.len() && #[trigger] b.subrange(i, i + t.len()) == t;
    assert((a + b).subrange(a.len() + i, a.len() + i + t.len()) =~= b.subrange(i, i + t.len()));
}

/// The line that defines the panic string `s` as `$panic<k>`.
pub open spec fn panic_line(k: nat, s: Seq<char>) -> Seq<char> {
    "    $panic"@ + decimal(k) + " = \""@ + escaped(s) + "\" ascii\n"@
}

/// The line that defines code atom `a` as `$code<k>`.
pub open spec fn code_line(k: nat, a: CodeAtom) -> Seq<char> {
    "    $code"@ + decimal(k) + " = { "@ + hex_text(a.bytes@) + " } // fn 0x"@ + hex_lower(a.fn_start as nat) + "\n"@
}

/// The line that defines masked atom `a` as `$mcode<k>`.
pub open spec fn mcode_line(k: nat, a: MaskedAtom) -> Seq<char> {
    "    $mcode"@ + decimal(k) + " = { "@ + masked_text(a.bytes@) + " } // fn 0x"@ + hex_lower(a.fn_start as nat) + "\n"@
}

/// The line that defines behavioral string `b` as `$behavior<k>`.
pub open spec fn behavior_line(k: nat, b: (String, u64)) -> Seq<char> {
    "    $behavior"@ + decimal(k) + " = \""@ + escaped(b.0@) + "\" ascii // fn 0x"@ + hex_lower(b.1 as nat) + "\n"@
}

proof fn lemma_panic_defs_lines(strs: Seq<Seq<char>>)
    ensures
        forall|k: int| 0 <= k < strs.len() ==> occurs_in(panic_defs(strs), #[trigger] panic_line(k as nat, strs[k])),
    decreases strs.len(),
{
    if strs.len() > 0 {
        let prev = strs.drop_last();
        let n = strs.len() - 1;
        lemma_panic_defs_lines(prev);
        let line = panic_line(n as nat, strs.last());
        assert(panic_defs(strs) =~= panic_defs(prev) + line);
        assert forall|k: int| 0 <= k < strs.len() implies occurs_in(panic_defs(strs), #[trigger] panic_line(k as nat, strs[k])) by {
            if k < n {
                assert(prev[k] == strs[k]);
                lemma_occurs_in_prefix(panic_defs(prev), line, panic_line(k as nat, strs[k]));
            } else {
                lemma_occurs_in_self(line);
                lemma_occurs_in_suffix(panic_defs(prev), line, line);
            }
        }
    }
}

proof fn lemma_code_defs_lines(atoms: Seq<CodeAtom>)
    ensures
        forall|k: int| 0 <= k < atoms.len() ==> occurs_in(code_defs(atoms), #[trigger] code_line(k as nat, atoms[k])),
    decreases atoms.len(),
{
    if atoms.len() > 0 {
        let prev = atoms.drop_last();
        let n = atoms.len() - 1;
        lemma_code_defs_lines(prev);
        let line = code_line(n as nat, atoms.last());
        assert(code_defs(atoms) =~= code_defs(prev) + line);
        assert forall|k: int| 0 <= k < atoms.len() implies occurs_in(code_defs(atoms), #[trigger] code_line(k as nat, atoms[k])) by {
            if k < n {
                assert(prev[k] == atoms[k]);
                lemma_occurs_in_prefix(code_defs(prev), line, code_line(k as nat, atoms[k]));
            } else {
                lemma_occurs_in_self(line);
                lemma_occurs_in_suffix(code_defs(prev), line, line);
            }
        }
    }
}

/// Every panic string and every code atom of a Tier 2 rule is defined on a
/// line of its own, the `k`-th under the identifier `$panic<k>` or `$code<k>`,
/// so no two strings of the rule share an identifier.
pub proof fn lemma_tier2_rule_defines_each_string(inp: RuleInputs)
    ensures
        forall|k: int|
            0 <= k < inp.anchor_strings@.len() ==> occurs_in(
                tier2_rule_text(inp),
                #[trigger] panic_line(k as nat, inp.anchor_strings@[k]@),
            ),
        forall|k: int|
            0 <= k < inp.code_atoms@.len() ==> occurs_in(tier2_rule_text(inp), #[trigger] code_line(k as nat, inp.code_atoms@[k])),
{
    let head = "rule "@ + sanitized("winnow_"@ + inp.sample_name@) + " {\n"@ + meta_head(
        "winnow-phase1"@,
        "2"@,
        inp.sample_name@,
        inp.sample_path@,
        inp.sample_sha256@,
        inp.min_anchors,
        inp.strong_fn_count,
    ) + TIER2_RESTS_ON@ + "  strings:\n"@;
    let pd = panic_defs(views(inp.anchor_strings@));
    let cd = code_defs(inp.code_atoms@);
    let c1 = "  condition:\n"@;
    let c2 = "    uint32(0) == 0x464c457f and any of ($panic*) and any of ($code*)\n"@;
    let c3 = "}\n"@;
    assert(tier2_rule_text(inp) == head + pd + cd + c1 + c2 + c3);
    lemma_panic_defs_lines(views(inp.anchor_strings@));
    lemma_code_defs_lines(inp.code_atoms@);
    assert forall|k: int| 0 <= k < inp.anchor_strings@.len() implies occurs_in(
        tier2_rule_text(inp),
        #[trigger] panic_line(k as nat, inp.anchor_strings@[k]@),
    ) by {
        let t = panic_line(k as nat, inp.anchor_strings@[k]@);
        assert(views(inp.anchor_strings@)[k] == inp.anchor_strings@[k]@);
        assert(occurs_in(pd, t));
        lemma_occurs_in_suffix(head, pd, t);
        lemma_occurs_in_prefix(head + pd, cd, t);
        lemma_occurs_in_prefix(head + pd + cd, c1, t);
        lemma_occurs_in_prefix(head + pd + cd + c1, c2, t);
        lemma_occurs_in_prefix(head + pd + cd + c1 + c2, c3, t);
    }
    assert forall|k: int| 0 <= k < inp.code_atoms@.len() implies occurs_in(
        tier2_rule_text(inp),
        #[trigger] code_line(k as nat, inp.code_atoms@[k]),
    ) by {
        let t = code_line(k as nat, inp.code_atoms@[k]);
        assert(occurs_in(cd, t));
        lemma_occurs_in_suffix(head + pd, cd, t);
        lemma_occurs_in_prefix(head + pd + cd, c1, t);
        lemma_occurs_in_prefix(head + pd + cd + c1, c2, t);
        lemma_occurs_in_prefix(head + pd + cd + c1 + c2, c3, t);
    }
}

/// Emit the Tier 2 rule: author panic-path strings plus boundary-free code
/// atoms, both required by the condition.
pub fn build_rule(inp: &RuleInputs) -> (r: String)
    ensures
        r@ =~= tier2_rule_text(*inp),
        forall|k: int|
            0 <= k < inp.anchor_strings@.len() ==> occurs_in(r@, #[trigger] panic_line(k as nat, inp.anchor_strings@[k]@)),
        forall|k: int| 0 <= k < inp.code_atoms@.len() ==> occurs_in(r@, #[trigger] code_line(k as nat, inp.code_atoms@[k])),
{
    let mut out = String::new();
    push_str(&mut out, "rule ");
    push_str(&mut out, rule_name("winnow_", inp.sample_name).as_str());
    push_str(&mut out, " {\n");
    push_meta_head(&mut out, "winnow-phase1", "2", inp.sample_name, inp.sample_path, &inp.sample_sha256, inp.min_anchors, inp.strong_fn_count);
    push_str(&mut out, TIER2_RESTS_ON);
    push_str(&mut out, "  strings:\n");
    let ghost head = out@;
    let strs = &inp.anchor_strings;
    let mut i: usize = 0;
    while i < strs.len()
        invariant
            i <= strs@.len(),
            out@ =~= head + panic_defs(views(strs@.take(i as int))),
        decreases strs@.len() - i,
    {
        assert(views(strs@.take(i as int + 1)).drop_last() =~= views(strs@.take(i as int)));
        push_str(&mut out, "    $panic");
        push_decimal(&mut out, i as u64);
        push_str(&mut out, " = \"");
        push_str(&mut out, escape_str(strs[i].as_str()).as_str());
        push_str(&mut out, "\" ascii\n");
        i += 1;
    }
    assert(strs@.take(i as int) =~= strs@);
    let ghost mid = out@;
    let atoms = &inp.code_atoms;
    let mut i: usize = 0;
    while i < atoms.len()
        invariant
            i <= atoms@.len(),
            out@ =~= mid + code_defs(atoms@.take(i as int)),
        decreases atoms@.len() - i,
    {
        assert(atoms@.take(i as int + 1).drop_last() =~= atoms@.take(i as int));
        push_str(&mut out, "    $code");
        push_decimal(&mut out, i as u64);
        push_str(&mut out, " = { ");
        push_str(&mut out, hex_bytes(atoms[i].bytes.as_slice()).as_str());
        push_str(&mut out, " } // fn 0x");
        push_hex_lower(&mut out, atoms[i].fn_start);
        push_str(&mut out, "\n");
        i += 1;
    }
    assert(atoms@.take(i as int) =~= atoms@);
    push_str(&mut out, "  condition:\n");
    push_str(&mut out, "    uint32(0) == 0x464c457f and any of ($panic*) and any of ($code*)\n");
    push_str(&mut out, "}\n");
    proof {
        lemma_tier2_rule_defines_each_string(*inp);
    }
    out
}


/// `v` lists its elements in strictly increasing order.
pub open spec fn strictly_increasing(v: Seq<u64>) -> bool {
    forall|i: int, j: int| 0 <= i < j < v.len() ==> v[i] < v[j]
}

/// `v` lists the distinct elements of `s` in increasing order.
pub open spec fn sorts_distinct(v: Seq<u64>, s: Seq<u64>) -> bool {
    &&& strictly_increasing(v)
    &&& forall|x: u64| v.contains(x) <==> s.contains(x)
}

/// The distinct elements of `s`, in increasing order.
pub open spec fn sorted_distinct(s: Seq<u64>) -> Seq<u64> {
    choose|v: Seq<u64>| sorts_distinct(v, s)
}

/// Two increasing listings of the same elements are the same listing.
pub proof fn lemma_increasing_unique(a: Seq<u64>, b: Seq<u64>)
    requires
        strictly_increasing(a),
        strictly_increasing(b),
        forall|x: u64| a.contains(x) <==> b.contains(x),
    ensures
        a == b,
    decreases a.len(),
{
    if a.len() == 0 {
        if b.len() > 0 {
            assert(b.contains(b[0]));
        }
        assert(a =~= b);
    } else {
        assert(a.contains(a[0]));
        assert(b.len() > 0);
        assert(b.contains(b[0]));
        let i = choose|i: int| 0 <= i < a.len() && a[i] == b[0];
        let j = choose|j: int| 0 <= j < b.len() && b[j] == a[0];
        assert(a[0] <= a[i]);
        assert(b[0] <= b[j]);
        let ta = a.drop_first();
        let tb = b.drop_first();
        assert forall|x: u64| ta.contains(x) <==> tb.contains(x) by {
            if ta.contains(x) {
                let k = choose|k: int| 0 <= k < ta.len() && ta[k] == x;
                assert(a[k + 1] == x);
                assert(a.contains(x));
                let m = choose|m: int| 0 <= m < b.len() && b[m] == x;
                assert(m != 0);
                assert(tb[m - 1] == x);
            }
            if tb.contains(x) {
                let k = choose|k: int| 0 <= k < tb.len() && tb[k] == x;
                assert(b[k + 1] == x);
                assert(b.contains(x));
                let m = choose|m: int| 0 <= m < a.len() && a[m] == x;
                assert(m != 0);
                assert(ta[m - 1] == x);
            }
        }
        lemma_increasing_unique(ta, tb);
        assert(a[0] == b[0]);
        assert forall|k: int| 0 <= k < a.len() implies a[k] == b[k] by {
            if k > 0 {
                assert(a[k] == ta[k - 1]);
                assert(b[k] == tb[k - 1]);
            }
        }
        assert(a =~= b);
    }
}

/// The distinct elements of `fns`, in increasing order.
fn sort_distinct(fns: &[u64]) -> (v: Vec<u64>)
    ensures
        v@ == sorted_distinct(fns@),
{
    let mut v: Vec<u64> = Vec::new();
    let mut i: usize = 0;
    while i < fns.len()
        invariant
            i <= fns@.len(),
            sorts_distinct(v@, fns@.take(i as int)),
        decreases fns@.len() - i,
    {
        let x = fns[i];
        let mut idx: usize = 0;
        while idx < v.len() && v[idx] < x
            invariant
                idx <= v@.len(),
                forall|k: int| 0 <= k < idx ==> v@[k] < x,
            decreases v@.len() - idx,
        {
            idx += 1;
        }
        let ghost old_v = v@;
        if idx < v.len() && v[idx] == x {
        } else {
            v.insert(idx, x);
            proof {
                assert forall|a: int, b: int| 0 <= a < b < v@.len() implies v@[a] < v@[b] by {
                    if a < idx && b > idx {
                        assert(v@[b] == old_v[b - 1]);
                        if idx < old_v.len() {
                            assert(old_v[idx as int] > x);
                        }
                    } else if b > idx && a > idx {
                        assert(v@[a] == old_v[a - 1]);
                        assert(v@[b] == old_v[b - 1]);
                    } else if a == idx && b > idx {
                        assert(v@[b] == old_v[b - 1]);
                        assert(old_v[idx as int] >= x);
                        assert(old_v[idx as int] != x);
                        if b - 1 > idx {
                            assert(old_v[idx as int] < old_v[b - 1]);
                        }
                    }
                }
            }
        }
        proof {
            assert forall|y: u64| v@.contains(y) <==> fns@.take(i as int + 1).contains(y) by {
                assert(fns@.take(i as int + 1) =~= fns@.take(i as int).push(x));
                if v@.contains(y) {
                    let k = choose|k: int| 0 <= k < v@.len() && v@[k] == y;
                    if y != x {
                        if k < idx {
                            assert(old_v[k] == y);
                        } else if v@.len() > old_v.len() {
                            assert(old_v[k - 1] == y);
                        } else {
                            assert(old_v[k] == y);
                        }
                        assert(old_v.contains(y));
                    }
                    assert(fns@.take(i as int + 1)[i as int] == x);
                }
                if fns@.take(i as int + 1).contains(y) {
                    if y == x {
                        assert(v@[idx as int] == x);
                    } else {
                        let k = choose|k: int| 0 <= k <= i && #[trigger] fns@.take(i as int + 1)[k] == y;
                        assert(fns@.take(i as int)[k] == y);
                        assert(old_v.contains(y));
                        let m = choose|m: int| 0 <= m < old_v.len() && old_v[m] == y;
                        if v@.len() > old_v.len() {
                            if m < idx {
                                assert(v@[m] == y);
                            } else {
                                assert(v@[m + 1] == y);
                            }
                        } else {
                            assert(v@[m] == y);
                        }
                    }
                }
            }
        }
        i += 1;
    }
    proof {
        assert(fns@.take(i as int) =~= fns@);
        lemma_increasing_unique(v@, sorted_distinct(fns@));
    }
    v
}


/// Comma-separated `0x`-prefixed lowercase hex of `v`.
pub open spec fn fn_list_text(v: Seq<u64>) -> Seq<char>
    decreases v.len(),
{
    if v.len() == 0 {
        Seq::empty()
    } else if v.len() == 1 {
        "0x"@ + hex_lower(v[0] as nat)
    } else {
        fn_list_text(v.drop_last()) + ", 0x"@ + hex_lower(v.last() as nat)
    }
}

/// The distinct function starts of `fns`, sorted, as `{0x.., 0x..}`.
pub open spec fn fn_set_text(fns: Seq<u64>) -> Seq<char> {
    "{"@ + fn_list_text(sorted_distinct(fns)) + "}"@
}

/// Sorted, de-duplicated `0x..`-formatted function starts, `{a, b}` style.
pub fn distinct_fns(fns: &[u64]) -> (r: String)
    ensures
        r@ =~= fn_set_text(fns@),
{
    let v = sort_distinct(fns);
    let mut out = String::new();
    push_str(&mut out, "{");
    let ghost head = out@;
    let mut i: usize = 0;
    while i < v.len()
        invariant
            i <= v@.len(),
            out@ =~= head + fn_list_text(v@.take(i as int)),
        decreases v@.len() - i,
    {
        assert(v@.take(i as int + 1).drop_last() =~= v@.take(i as int));
        if i > 0 {
            push_str(&mut out, ", 0x");
        } else {
            push_str(&mut out, "0x");
        }
        push_hex_lower(&mut out, v[i]);
        i += 1;
    }
    assert(v@.take(i as int) =~= v@);
    push_str(&mut out, "}");
    out
}

/// `strs` joined with `sep` between consecutive elements.
pub open spec fn joined(strs: Seq<Seq<char>>, sep: Seq<char>) -> Seq<char>
    decreases strs.len(),
{
    if strs.len() == 0 {
        Seq::empty()
    } else if strs.len() == 1 {
        strs[0]
    } else {
        joined(strs.drop_last(), sep) + sep + strs.last()
    }
}

fn join_strings(strs: &Vec<String>, sep: &str) -> (r: String)
    ensures
        r@ =~= joined(views(strs@), sep@),
{
    let mut out = String::new();
    let mut i: usize = 0;
    while i < strs.len()
        invariant
            i <= strs@.len(),
            out@ =~= joined(views(strs@.take(i as int)), sep@),
        decreases strs@.len() - i,
    {
        assert(views(strs@.take(i as int + 1)).drop_last() =~= views(strs@.take(i as int)));
        if i > 0 {
            push_str(&mut out, sep);
        }
        push_str(&mut out, strs[i].as_str());
        i += 1;
    }
    assert(strs@.take(i as int) =~= strs@);
    out
}

/// `$mcode<i>` masked hex definitions.
pub open spec fn mcode_defs(atoms: Seq<MaskedAtom>) -> Seq<char>
    decreases atoms.len(),
{
    if atoms.len() == 0 {
        Seq::empty()
    } else {
        mcode_defs(atoms.drop_last()) + "    $mcode"@ + decimal((atoms.len() - 1) as nat) + " = { "@ + masked_text(
            atoms.last().bytes@,
        ) + " } // fn 0x"@ + hex_lower(atoms.last().fn_start as nat) + "\n"@
    }
}

/// `$behavior<i>` string definitions.
pub open spec fn behavior_defs(strs: Seq<(String, u64)>) -> Seq<char>
    decreases strs.len(),
{
    if strs.len() == 0 {
        Seq::empty()
    } else {
        behavior_defs(strs.drop_last()) + "    $behavior"@ + decimal((strs.len() - 1) as nat) + " = \""@ + escaped(
            strs.last().0@,
        ) + "\" ascii // fn 0x"@ + hex_lower(strs.last().1 as nat) + "\n"@
    }
}

/// Function starts of the masked atoms.
pub open spec fn atom_fns(atoms: Seq<MaskedAtom>) -> Seq<u64> {
    atoms.map_values(|a: MaskedAtom| a.fn_start)
}

/// Function starts of the behavioral strings.
pub open spec fn string_fns(strs: Seq<(String, u64)>) -> Seq<u64> {
    strs.map_values(|b: (String, u64)| b.1)
}

/// The text of the Tier 1 rule for `inp`.
pub open spec fn tier1_rule_text(inp: Tier1Inputs) -> Seq<char> {
    "rule "@ + sanitized("winnow_tier1_"@ + inp.sample_name@) + " {\n"@ + meta_head(
        "winnow-phase3"@,
        "1"@,
        inp.sample_name@,
        inp.sample_path@,
        inp.sample_sha256@,
        inp.min_anchors,
        inp.strong_fn_count,
    ) + "    confirming_panic_strings = \""@ + escaped(joined(views(inp.panic_strings@), "; "@)) + "\"\n"@
        + "    benign_corpus_size = "@ + decimal(inp.corpus_size as nat) + "\n"@ + INDEPENDENCE_HEAD@ + fn_set_text(
        atom_fns(inp.masked_atoms@),
    ) + INDEPENDENCE_MID@ + fn_set_text(string_fns(inp.behavior_strings@)) + INDEPENDENCE_TAIL@ + TIER1_RESTS_ON@
        + "  strings:\n"@ + mcode_defs(inp.masked_atoms@) + behavior_defs(inp.behavior_strings@) + "  condition:\n"@
        + "    uint32(0) == 0x464c457f and any of ($mcode*) and any of ($behavior*)\n"@ + "}\n"@
}

/// The condition of every Tier 1 rule is the same fixed line: an ELF file
/// holding a masked code atom and a behavioral string. It never depends on
/// the inputs, and in particular never on the panic strings, which stay in
/// `meta` as confirming evidence only.
pub proof fn lemma_tier1_condition_is_fixed(inp: Tier1Inputs)
    ensures
        exists|head: Seq<char>|
            tier1_rule_text(inp) == head + "  condition:\n"@
                + "    uint32(0) == 0x464c457f and any of ($mcode*) and any of ($behavior*)\n"@ + "}\n"@,
{
    let t = tier1_rule_text(inp);
    let tail = "  condition:\n"@ + "    uint32(0) == 0x464c457f and any of ($mcode*) and any of ($behavior*)\n"@ + "}\n"@;
    let head = t.subrange(0, t.len() - tail.len());
    assert(t =~= head + tail);
    assert(head + tail == head + "  condition:\n"@
        + "    uint32(0) == 0x464c457f and any of ($mcode*) and any of ($behavior*)\n"@ + "}\n"@);
}

proof fn lemma_mcode_defs_lines(atoms: Seq<MaskedAtom>)
    ensures
        forall|k: int| 0 <= k < atoms.len() ==> occurs_in(mcode_defs(atoms), #[trigger] mcode_line(k as nat, atoms[k])),
    decreases atoms.len(),
{
    if atoms.len() > 0 {
        let prev = atoms.drop_last();
        let n = atoms.len() - 1;
        lemma_mcode_defs_lines(prev);
        let line = mcode_line(n as nat, atoms.last());
        assert(mcode_defs(atoms) =~= mcode_defs(prev) + line);
        assert forall|k: int| 0 <= k < atoms.len() implies occurs_in(mcode_defs(atoms), #[trigger] mcode_line(k as nat, atoms[k])) by {
            if k < n {
                assert(prev[k] == atoms[k]);
                lemma_occurs_in_prefix(mcode_defs(prev), line, mcode_line(k as nat, atoms[k]));
            } else {
                lemma_occurs_in_self(line);
                lemma_occurs_in_suffix(mcode_defs(prev), line, line);
            }
        }
    }
}

proof fn lemma_behavior_defs_lines(strs: Seq<(String, u64)>)
    ensures
        forall|k: int| 0 <= k < strs.len() ==> occurs_in(behavior_defs(strs), #[trigger] behavior_line(k as nat, strs[k])),
    decreases strs.len(),
{
    if strs.len() > 0 {
        let prev = strs.drop_last();
        let n = strs.len() - 1;
        lemma_behavior_defs_lines(prev);
        let line = behavior_line(n as nat, strs.last());
        assert(behavior_defs(strs) =~= behavior_defs(prev) + line);
        assert forall|k: int| 0 <= k < strs.len() implies occurs_in(behavior_defs(strs), #[trigger] behavior_line(k as nat, strs[k])) by {
            if k < n {
                assert(prev[k] == strs[k]);
                lemma_occurs_in_prefix(behavior_defs(prev), line, behavior_line(k as nat, strs[k]));
            } else {
                lemma_occurs_in_self(line);
                lemma_occurs_in_suffix(behavior_defs(prev), line, line);
            }
        }
    }
}

/// Every masked atom and every behavioral string of a Tier 1 rule is defined
/// on a line of its own, the `k`-th under `$mcode<k>` or `$behavior<k>`, so
/// no two strings of the rule share an identifier.
pub proof fn lemma_tier1_rule_defines_each_string(inp: Tier1Inputs)
    ensures
        forall|k: int|
            0 <= k < inp.masked_atoms@.len() ==> occurs_in(tier1_rule_text(inp), #[trigger] mcode_line(k as nat, inp.masked_atoms@[k])),
        forall|k: int|
            0 <= k < inp.behavior_strings@.len() ==> occurs_in(
                tier1_rule_text(inp),
                #[trigger] behavior_line(k as nat, inp.behavior_strings@[k]),
            ),
{
    let head = "rule "@ + sanitized("winnow_tier1_"@ + inp.sample_name@) + " {\n"@ + meta_head(
        "winnow-phase3"@,
        "1"@,
        inp.sample_name@,
        inp.sample_path@,
        inp.sample_sha256@,
        inp.min_anchors,
        inp.strong_fn_count,
    ) + "    confirming_panic_strings = \""@ + escaped(joined(views(inp.panic_strings@), "; "@)) + "\"\n"@
        + "    benign_corpus_size = "@ + decimal(inp.corpus_size as nat) + "\n"@ + INDEPENDENCE_HEAD@ + fn_set_text(
        atom_fns(inp.masked_atoms@),
    ) + INDEPENDENCE_MID@ + fn_set_text(string_fns(inp.behavior_strings@)) + INDEPENDENCE_TAIL@ + TIER1_RESTS_ON@
        + "  strings:\n"@;
    let md = mcode_defs(inp.masked_atoms@);
    let bd = behavior_defs(inp.behavior_strings@);
    let c1 = "  condition:\n"@;
    let c2 = "    uint32(0) == 0x464c457f and any of ($mcode*) and any of ($behavior*)\n"@;
    let c3 = "}\n"@;
    assert(tier1_rule_text(inp) == head + md + bd + c1 + c2 + c3);
    lemma_mcode_defs_lines(inp.masked_atoms@);
    lemma_behavior_defs_lines(inp.behavior_strings@);
    assert forall|k: int| 0 <= k < inp.masked_atoms@.len() implies occurs_in(
        tier1_rule_text(inp),
        #[trigger] mcode_line(k as nat, inp.masked_atoms@[k]),
    ) by {
        let t = mcode_line(k as nat, inp.masked_atoms@[k]);
        assert(occurs_in(md, t));
        lemma_occurs_in_suffix(head, md, t);
        lemma_occurs_in_prefix(head + md, bd, t);
        lemma_occurs_in_prefix(head + md + bd, c1, t);
        lemma_occurs_in_prefix(head + md + bd + c1, c2, t);
        lemma_occurs_in_prefix(head + md + bd + c1 + c2, c3, t);
    }
    assert forall|k: int| 0 <= k < inp.behavior_strings@.len() implies occurs_in(
        tier1_rule_text(inp),
        #[trigger] behavior_line(k as nat, inp.behavior_strings@[k]),
    ) by {
        let t = behavior_line(k as nat, inp.behavior_strings@[k]);
        assert(occurs_in(bd, t));
        lemma_occurs_in_suffix(head + md, bd, t);
        lemma_occurs_in_prefix(head + md + bd, c1, t);
        lemma_occurs_in_prefix(head + md + bd + c1, c2, t);
        lemma_occurs_in_prefix(head + md + bd + c1 + c2, c3, t);
    }
}

/// Emit the Tier 1 rule: its condition requires a masked code atom and an
/// independent behavioral string; the panic strings appear only in `meta`.
pub fn build_tier1_rule(inp: &Tier1Inputs) -> (r: String)
    ensures
        r@ =~= tier1_rule_text(*inp),
        forall|k: int| 0 <= k < inp.masked_atoms@.len() ==> occurs_in(r@, #[trigger] mcode_line(k as nat, inp.masked_atoms@[k])),
        forall|k: int|
            0 <= k < inp.behavior_strings@.len() ==> occurs_in(r@, #[trigger] behavior_line(k as nat, inp.behavior_strings@[k])),
{
    let mut out = String::new();
    push_str(&mut out, "rule ");
    push_str(&mut out, rule_name("winnow_tier1_", inp.sample_name).as_str());
    push_str(&mut out, " {\n");
    push_meta_head(&mut out, "winnow-phase3", "1", inp.sample_name, inp.sample_path, &inp.sample_sha256, inp.min_anchors, inp.strong_fn_count);
    push_str(&mut out, "    confirming_panic_strings = \"");
    push_str(&mut out, escape_str(join_strings(&inp.panic_strings, "; ").as_str()).as_str());
    push_str(&mut out, "\"\n");
    push_str(&mut out, "    benign_corpus_size = ");
    push_decimal(&mut out, inp.corpus_size as u64);
    push_str(&mut out, "\n");
    let atoms = &inp.masked_atoms;
    let strs = &inp.behavior_strings;
    let mut code_fns: Vec<u64> = Vec::new();
    let mut i: usize = 0;
    while i < atoms.len()
        invariant
            i <= atoms@.len(),
            code_fns@ =~= atom_fns(atoms@.take(i as int)),
        decreases atoms@.len() - i,
    {
        code_fns.push(atoms[i].fn_start);
        i += 1;
    }
    assert(atoms@.take(i as int) =~= atoms@);
    let mut str_fns: Vec<u64> = Vec::new();
    let mut i: usize = 0;
    while i < strs.len()
        invariant
            i <= strs@.len(),
            str_fns@ =~= string_fns(strs@.take(i as int)),
        decreases strs@.len() - i,
    {
        str_fns.push(strs[i].1);
        i += 1;
    }
    assert(strs@.take(i as int) =~= strs@);
    push_str(&mut out, INDEPENDENCE_HEAD);
    push_str(&mut out, distinct_fns(code_fns.as_slice()).as_str());
    push_str(&mut out, INDEPENDENCE_MID);
    push_str(&mut out, distinct_fns(str_fns.as_slice()).as_str());
    push_str(&mut out, INDEPENDENCE_TAIL);
    push_str(&mut out, TIER1_RESTS_ON);
    push_str(&mut out, "  strings:\n");
    let ghost head = out@;
    let mut i: usize = 0;
    while i < atoms.len()
        invariant
            i <= atoms@.len(),
            out@ =~= head + mcode_defs(atoms@.take(i as int)),
        decreases atoms@.len() - i,
    {
        assert(atoms@.take(i as int + 1).drop_last() =~= atoms@.take(i as int));
        push_str(&mut out, "    $mcode");
        push_decimal(&mut out, i as u64);
        push_str(&mut out, " = { ");
        push_str(&mut out, hex_masked(atoms[i].bytes.as_slice()).as_str());
        push_str(&mut out, " } // fn 0x");
        push_hex_lower(&mut out, atoms[i].fn_start);
        push_str(&mut out, "\n");
        i += 1;
    }
    let ghost mid = out@;
    let mut i: usize = 0;
    while i < strs.len()
        invariant
            i <= strs@.len(),
            out@ =~= mid + behavior_defs(strs@.take(i as int)),
        decreases strs@.len() - i,
    {
        assert(strs@.take(i as int + 1).drop_last() =~= strs@.take(i as int));
        push_str(&mut out, "    $behavior");
        push_decimal(&mut out, i as u64);
        push_str(&mut out, " = \"");
        push_str(&mut out, escape_str(strs[i].0.as_str()).as_str());
        push_str(&mut out, "\" ascii // fn 0x");
        push_hex_lower(&mut out, strs[i].1);
        push_str(&mut out, "\n");
        i += 1;
    }
    push_str(&mut out, "  condition:\n");
    push_str(&mut out, "    uint32(0) == 0x464c457f and any of ($mcode*) and any of ($behavior*)\n");
    push_str(&mut out, "}\n");
    proof {
        lemma_tier1_rule_defines_each_string(*inp);
    }
    out
}

} // verus!
