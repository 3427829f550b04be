//! The census an external attribution tool reports for a binary: its author
//! functions, their boundaries, tiers and panic source paths.
use vstd::prelude::*;

use crate::emit::{hex_lower, lower_digit};
use crate::text::push_str;

verus! {

/// The attribution census of one binary.
pub struct Census {
    pub binary: String,
    pub arch: String,
    pub min_anchors: usize,
    pub functions: Vec<FnRange>,
}

/// One attributed function.
pub struct FnRange {
    pub start: u64,
    pub end: u64,
    pub size: u64,
    pub tier: String,
    pub anchor_count: usize,
    pub anchor_files: Vec<String>,
}

/// What one attempt to run an `unhusk` candidate produced.
pub enum UnhuskRun {
    /// It exited successfully; its standard output.
    Succeeded(Vec<u8>),
    /// It ran but exited unsuccessfully: its exit status and standard error.
    Exited { status: String, stderr: String },
    /// It could not be started; the reason.
    SpawnFailed(String),
}

/// What to do after an attempt.
pub enum UnhuskStep {
    /// Read the census from this output.
    Parse(Vec<u8>),
    /// Try the candidate at this index.
    TryNext(usize),
    /// Give up with this message.
    Fail(String),
}

/// The `unhusk` binaries to try, in order: the explicit override alone, or
/// else `unhusk` on the search path and then the sibling build.
pub fn unhusk_candidates(override_bin: Option<String>) -> (r: Vec<String>)
    ensures
        override_bin matches Some(p) ==> r@.len() == 1 && r@[0]@ == p@,
        override_bin is None ==> r@.len() == 2 && r@[0]@ == "unhusk"@ && r@[1]@
            == "../unhusk/target/release/unhusk"@,
{
    match override_bin {
        Some(p) => vec![p],
        None => vec![String::from_str("unhusk"), String::from_str("../unhusk/target/release/unhusk")],
    }
}

/// The message a failed attempt of `candidate` is reported with.
pub open spec fn unhusk_failure(candidate: Seq<char>, run: UnhuskRun) -> Seq<char> {
    match run {
        UnhuskRun::Exited { status, stderr } => "unhusk ("@ + candidate + ") exited with "@ + status@ + ": "@ + stderr@,
        UnhuskRun::SpawnFailed(reason) => "could not spawn "@ + candidate + ": "@ + reason@,
        UnhuskRun::Succeeded(_) => Seq::empty(),
    }
}

/// Decide what follows the attempt of `candidates[tried]`: the first success
/// is parsed; a failure moves on to the next candidate, and the failure of the
/// last candidate is reported. An override is the only candidate, so when it
/// fails nothing else is tried.
pub fn unhusk_next(candidates: &Vec<String>, tried: usize, run: UnhuskRun) -> (r: UnhuskStep)
    requires
        tried < candidates@.len(),
    ensures
        run matches UnhuskRun::Succeeded(out) ==> r == UnhuskStep::Parse(out),
        !(run is Succeeded) && tried + 1 < candidates@.len() ==> r == UnhuskStep::TryNext((tried + 1) as usize),
        !(run is Succeeded) && tried + 1 == candidates@.len() ==> (r matches UnhuskStep::Fail(m) && m@
            == unhusk_failure(candidates@[tried as int]@, run)),
{
    match run {
        UnhuskRun::Succeeded(out) => UnhuskStep::Parse(out),
        UnhuskRun::Exited { status, stderr } => {
            if tried < candidates.len() - 1 {
                return UnhuskStep::TryNext(tried + 1);
            }
            let mut m = String::new();
            push_str(&mut m, "unhusk (");
            push_str(&mut m, candidates[tried].as_str());
            push_str(&mut m, ") exited with ");
            push_str(&mut m, status.as_str());
            push_str(&mut m, ": ");
            push_str(&mut m, stderr.as_str());
            UnhuskStep::Fail(m)
        },
        UnhuskRun::SpawnFailed(reason) => {
            if tried < candidates.len() - 1 {
                return UnhuskStep::TryNext(tried + 1);
            }
            let mut m = String::new();
            push_str(&mut m, "could not spawn ");
            push_str(&mut m, candidates[tried].as_str());
            push_str(&mut m, ": ");
            push_str(&mut m, reason.as_str());
            UnhuskStep::Fail(m)
        },
    }
}

/// Why a hexadecimal number did not parse.
#[derive(Debug, Clone, Copy, PartialEq, Eq, Structural)]
pub enum HexError {
    /// Nothing left to parse.
    Empty,
    /// A character that is not a hexadecimal digit.
    InvalidDigit,
    /// The value does not fit in 64 bits.
    Overflow,
}

/// `s` with every leading `0x` removed.
pub open spec fn strip_0x(s: Seq<char>) -> Seq<char>
    decreases s.len(),
{
    if s.len() >= 2 && s[0] == '0' && s[1] == 'x' {
        strip_0x(s.subrange(2, s.len() as int))
    } else {
        s
    }
}

/// Value of a hexadecimal digit, if `c` is one.
pub open spec fn hex_digit_value(c: char) -> Option<nat> {
    if '0' <= c && c <= '9' {
        Some((c as nat - 48) as nat)
    } else if 'a' <= c && c <= 'f' {
        Some((c as nat - 87) as nat)
    } else if 'A' <= c && c <= 'F' {
        Some((c as nat - 55) as nat)
    } else {
        None
    }
}

/// Accumulate the hexadecimal digits `d` onto `acc`, left to right, failing
/// at the first non-digit or at the first digit that overflows 64 bits.
pub open spec fn hex_scan(acc: nat, d: Seq<char>) -> Result<u64, HexError>
    decreases d.len(),
{
    if d.len() == 0 {
        Ok(acc as u64)
    } else {
        match hex_digit_value(d[0]) {
            None => Err(HexError::InvalidDigit),
            Some(x) => {
                let a = acc * 16 + x;
                if a > u64::MAX {
                    Err(HexError::Overflow)
                } else {
                    hex_scan(a, d.drop_first())
                }
            },
        }
    }
}

/// Base-16 parse of `t` as an unsigned 64-bit number: an optional leading `+`,
/// then hexadecimal digits.
pub open spec fn parse_hex(t: Seq<char>) -> Result<u64, HexError> {
    if t.len() == 0 {
        Err(HexError::Empty)
    } else if t[0] == '+' {
        if t.len() == 1 {
            Err(HexError::InvalidDigit)
        } else {
            hex_scan(0, t.drop_first())
        }
    } else {
        hex_scan(0, t)
    }
}

/// A hexadecimal address as the census writes it, with or without `0x`.
pub open spec fn hex_address(s: Seq<char>) -> Result<u64, HexError> {
    parse_hex(strip_0x(s))
}

fn digit_value(c: char) -> (r: Option<u64>)
    ensures
        r matches Some(v) ==> hex_digit_value(c) == Some(v as nat),
        r matches Some(v) ==> v < 16,
        r is None ==> hex_digit_value(c) is None,
{
    if '0' <= c && c <= '9' {
        Some((c as u32 - 48) as u64)
    } else if 'a' <= c && c <= 'f' {
        Some((c as u32 - 87) as u64)
    } else if 'A' <= c && c <= 'F' {
        Some((c as u32 - 55) as u64)
    } else {
        None
    }
}

/// Parse a census address: every leading `0x` is stripped, then the rest is
/// read in base 16.
pub fn hex_u64(s: &str) -> (r: Result<u64, HexError>)
    ensures
        r == hex_address(s@),
{
    let mut t: Vec<char> = Vec::new();
    for c in it: s.chars()
        invariant
            it.seq() == s@,
            t@ == s@.take(it.index() as int),
    {
        assert(s@.take(it.index() + 1) =~= s@.take(it.index() as int).push(c));
        t.push(c);
    }
    assert(s@.take(s@.len() as int) =~= s@);
    let mut start: usize = 0;
    while start < t.len() && t.len() - start >= 2 && t[start] == '0' && t[start + 1] == 'x'
        invariant
            start <= t@.len(),
            strip_0x(t@) == strip_0x(t@.subrange(start as int, t@.len() as int)),
        decreases t@.len() - start,
    {
        assert(t@.subrange(start as int, t@.len() as int).subrange(2, t@.len() - start) =~= t@.subrange(
            start + 2,
            t@.len() as int,
        ));
        start += 2;
    }
    let ghost rest = t@.subrange(start as int, t@.len() as int);
    assert(strip_0x(rest) == rest);
    assert(t@.subrange(0, t@.len() as int) =~= t@);
    assert(hex_address(s@) == parse_hex(rest));
    let n = t.len();
    if start == n {
        return Err(HexError::Empty);
    }
    let mut i = start;
    if t[i] == '+' {
        if n - i == 1 {
            return Err(HexError::InvalidDigit);
        }
        i += 1;
    }
    assert(parse_hex(rest) == hex_scan(0, t@.subrange(i as int, n as int))) by {
        if rest[0] == '+' {
            assert(rest.drop_first() =~= t@.subrange(i as int, n as int));
        } else {
            assert(rest =~= t@.subrange(i as int, n as int));
        }
    }
    let mut acc: u64 = 0;
    while i < n
        invariant
            start <= i <= n,
            n == t@.len(),
            parse_hex(rest) == hex_scan(acc as nat, t@.subrange(i as int, n as int)),
            hex_address(s@) == parse_hex(rest),
        decreases n - i,
    {
        let ghost d = t@.subrange(i as int, n as int);
        assert(d.drop_first() =~= t@.subrange(i + 1, n as int));
        assert(d[0] == t@[i as int]);
        match digit_value(t[i]) {
            None => return Err(HexError::InvalidDigit),
            Some(x) => {
                if acc > (u64::MAX - x) / 16 {
                    assert(acc * 16 + x > u64::MAX) by (nonlinear_arith)
                        requires
                            acc > (u64::MAX - x) / 16,
                            x < 16,
                    ;
                    return Err(HexError::Overflow);
                }
                assert(acc * 16 + x <= u64::MAX) by (nonlinear_arith)
                    requires
                        acc <= (u64::MAX - x) / 16,
                        x < 16,
                ;
                acc = acc * 16 + x;
            },
        }
        i += 1;
    }
    Ok(acc)
}


/// The hexadecimal value of the digit character `lower_digit(d)` is `d`.
proof fn lemma_lower_digit_value(d: nat)
    requires
        d < 16,
    ensures
        hex_digit_value(lower_digit(d)) == Some(d),
        lower_digit(d) != '+',
        lower_digit(d) != 'x',
{
}

/// Every character of `hex_lower(n)` is a lowercase hexadecimal digit.
proof fn lemma_hex_lower_digits(n: nat)
    ensures
        hex_lower(n).len() >= 1,
        forall|i: int| 0 <= i < hex_lower(n).len() ==> #[trigger] hex_digit_value(hex_lower(n)[i]) is Some
            && hex_lower(n)[i] != '+' && hex_lower(n)[i] != 'x',
    decreases n,
{
    if n < 16 {
        lemma_lower_digit_value(n);
    } else {
        lemma_hex_lower_digits(n / 16);
        lemma_lower_digit_value(n % 16);
    }
}

/// Scanning one more digit multiplies the value so far by 16 and adds it.
proof fn lemma_hex_scan_push(acc: nat, d: Seq<char>, c: char, m: u64, x: nat)
    requires
        acc <= u64::MAX,
        hex_scan(acc, d) == Ok::<u64, HexError>(m),
        hex_digit_value(c) == Some(x),
        m * 16 + x <= u64::MAX,
    ensures
        hex_scan(acc, d.push(c)) == Ok::<u64, HexError>((m * 16 + x) as u64),
    decreases d.len(),
{
    if d.len() == 0 {
        assert(acc == m);
        assert(d.push(c)[0] == c);
        assert(d.push(c).drop_first() =~= Seq::<char>::empty());
        assert(hex_scan(acc * 16 + x, Seq::<char>::empty()) == Ok::<u64, HexError>((m * 16 + x) as u64));
    } else {
        let a = acc * 16 + hex_digit_value(d[0]).unwrap();
        assert(d.push(c)[0] == d[0]);
        assert(d.push(c).drop_first() =~= d.drop_first().push(c));
        lemma_hex_scan_push(a, d.drop_first(), c, m, x);
    }
}

/// The lowercase hexadecimal text of `n` scans back to `n`.
proof fn lemma_hex_lower_scans(n: nat)
    requires
        n <= u64::MAX,
    ensures
        hex_scan(0, hex_lower(n)) == Ok::<u64, HexError>(n as u64),
    decreases n,
{
    if n < 16 {
        lemma_lower_digit_value(n);
        assert(hex_lower(n).drop_first() =~= Seq::<char>::empty());
        assert(hex_scan(n, Seq::<char>::empty()) == Ok::<u64, HexError>(n as u64));
    } else {
        lemma_hex_lower_scans(n / 16);
        lemma_lower_digit_value(n % 16);
        assert((n / 16) * 16 + n % 16 == n) by (nonlinear_arith);
        lemma_hex_scan_push(0, hex_lower(n / 16), lower_digit(n % 16), (n / 16) as u64, n % 16);
    }
}

/// A function address written as `0x` and lowercase hexadecimal, the way a
/// rule writes function starts, reads back through the census address parser
/// as the same address.
pub proof fn lemma_hex_address_round_trip(v: u64)
    ensures
        hex_address(seq!['0', 'x'] + hex_lower(v as nat)) == Ok::<u64, HexError>(v),
{
    let h = hex_lower(v as nat);
    let s = seq!['0', 'x'] + h;
    lemma_hex_lower_digits(v as nat);
    lemma_hex_lower_scans(v as nat);
    assert(s.subrange(2, s.len() as int) =~= h);
    if h.len() >= 2 {
        assert(hex_digit_value(h[1]) is Some);
    }
    assert(hex_digit_value(h[0]) is Some);
    assert(strip_0x(h) == h);
    assert(strip_0x(s) == h);
    assert(h[0] != '+');
}

} // verus!
