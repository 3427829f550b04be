//! The order of strings: lexicographic by character. Rust orders `String`s
//! by their UTF-8 bytes, and UTF-8 preserves the order of code points, so the
//! two orders agree.
use vstd::prelude::*;

verus! {

/// The views of a list of strings.
pub open spec fn views(strs: Seq<String>) -> Seq<Seq<char>> {
    strs.map_values(|s: String| s@)
}

/// `a` sorts strictly before `b`.
pub open spec fn str_lt(a: Seq<char>, b: Seq<char>) -> bool
    decreases a.len(),
{
    if a.len() == 0 {
        b.len() > 0
    } else if b.len() == 0 {
        false
    } else if a[0] != b[0] {
        a[0] < b[0]
    } else {
        str_lt(a.drop_first(), b.drop_first())
    }
}

/// No string sorts before itself.
pub proof fn lemma_str_lt_irreflexive(a: Seq<char>)
    ensures
        !str_lt(a, a),
    decreases a.len(),
{
    if a.len() > 0 {
        lemma_str_lt_irreflexive(a.drop_first());
    }
}

/// The order is transitive.
pub proof fn lemma_str_lt_transitive(a: Seq<char>, b: Seq<char>, c: Seq<char>)
    requires
        str_lt(a, b),
        str_lt(b, c),
    ensures
        str_lt(a, c),
    decreases a.len(),
{
    if a.len() > 0 && b.len() > 0 && c.len() > 0 {
        if a[0] == b[0] && b[0] == c[0] {
            lemma_str_lt_transitive(a.drop_first(), b.drop_first(), c.drop_first());
        }
    }
}

/// Two different strings are ordered one way or the other.
pub proof fn lemma_str_lt_total(a: Seq<char>, b: Seq<char>)
    requires
        a != b,
    ensures
        str_lt(a, b) || str_lt(b, a),
    decreases a.len(),
{
    if a.len() == 0 {
        assert(b.len() > 0) by {
            if b.len() == 0 {
                assert(a =~= b);
            }
        }
    } else if b.len() > 0 && a[0] == b[0] {
        if a.drop_first() == b.drop_first() {
            assert(a.drop_first().len() == a.len() - 1);
            assert(b.drop_first().len() == b.len() - 1);
            assert(a.len() == b.len());
            assert(a =~= b) by {
                assert forall|i: int| 0 <= i < a.len() implies a[i] == b[i] by {
                    if i > 0 {
                        assert(a[i] == a.drop_first()[i - 1]);
                        assert(b[i] == b.drop_first()[i - 1]);
                    }
                }
            }
        }
        lemma_str_lt_total(a.drop_first(), b.drop_first());
    }
}

/// `v` lists its strings in strictly increasing order.
pub open spec fn strs_increasing(v: Seq<Seq<char>>) -> bool {
    forall|i: int, j: int| 0 <= i < j < v.len() ==> str_lt(#[trigger] v[i], #[trigger] v[j])
}

/// `v` lists the distinct strings of `s` in increasing order.
pub open spec fn sorts_strs(v: Seq<Seq<char>>, s: Seq<Seq<char>>) -> bool {
    &&& strs_increasing(v)
    &&& forall|x: Seq<char>| v.contains(x) <==> s.contains(x)
}

/// The distinct strings of `s`, in increasing order.
pub open spec fn sorted_strs(s: Seq<Seq<char>>) -> Seq<Seq<char>> {
    choose|v: Seq<Seq<char>>| sorts_strs(v, s)
}

/// Two increasing listings of the same strings are the same listing.
pub proof fn lemma_sorted_strs_unique(a: Seq<Seq<char>>, b: Seq<Seq<char>>)
    requires
        strs_increasing(a),
        strs_increasing(b),
        forall|x: Seq<char>| a.contains(x) <==> b.contains(x),
    ensures
        a == b,
    decreases a.len(),
{
    if a.len() == 0 {
        if b.len() > 0 {
            assert(b.contains(b[0]));
        }
        assert(a =~= b);
    } else {
        assert(a.contains(a[0]));
        assert(b.contains(b[0]));
        let i = choose|i: int| 0 <= i < a.len() && a[i] == b[0];
        let j = choose|j: int| 0 <= j < b.len() && b[j] == a[0];
        if i > 0 && j > 0 {
            assert(str_lt(a[0], a[i]));
            assert(str_lt(b[0], b[j]));
            lemma_str_lt_transitive(a[0], b[0], a[0]);
            lemma_str_lt_irreflexive(a[0]);
        }
        assert(a[0] == b[0]);
        let ta = a.drop_first();
        let tb = b.drop_first();
        assert forall|x: Seq<char>| ta.contains(x) <==> tb.contains(x) by {
            if ta.contains(x) {
                let k = choose|k: int| 0 <= k < ta.len() && ta[k] == x;
                assert(a[k + 1] == x);
                assert(a.contains(x));
                let m = choose|m: int| 0 <= m < b.len() && b[m] == x;
                if m == 0 {
                    assert(str_lt(a[0], a[k + 1]));
                    lemma_str_lt_irreflexive(a[0]);
                }
                assert(tb[m - 1] == x);
            }
            if tb.contains(x) {
                let k = choose|k: int| 0 <= k < tb.len() && tb[k] == x;
                assert(b[k + 1] == x);
                assert(b.contains(x));
                let m = choose|m: int| 0 <= m < a.len() && a[m] == x;
                if m == 0 {
                    assert(str_lt(b[0], b[k + 1]));
                    lemma_str_lt_irreflexive(b[0]);
                }
                assert(ta[m - 1] == x);
            }
        }
        lemma_sorted_strs_unique(ta, tb);
        assert forall|k: int| 0 <= k < a.len() implies a[k] == b[k] by {
            if k > 0 {
                assert(a[k] == ta[k - 1]);
                assert(b[k] == tb[k - 1]);
            }
        }
        assert(a =~= b);
    }
}

/// The characters of `s`.
pub fn chars_of(s: &str) -> (r: Vec<char>)
    ensures
        r@ == s@,
{
    let mut out: Vec<char> = Vec::new();
    for c in it: s.chars()
        invariant
            it.seq() == s@,
            out@ == s@.take(it.index() as int),
    {
        assert(s@.take(it.index() + 1) =~= s@.take(it.index() as int).push(c));
        out.push(c);
    }
    assert(s@.take(s@.len() as int) =~= s@);
    out
}

/// `a` sorts strictly before `b`.
pub fn str_less(a: &str, b: &str) -> (r: bool)
    ensures
        r == str_lt(a@, b@),
{
    let x = chars_of(a);
    let y = chars_of(b);
    let mut i: usize = 0;
    assert(x@.skip(0) =~= x@);
    assert(y@.skip(0) =~= y@);
    while i < x.len() && i < y.len() && x[i] == y[i]
        invariant
            i <= x@.len(),
            i <= y@.len(),
            str_lt(x@, y@) == str_lt(x@.skip(i as int), y@.skip(i as int)),
        decreases x@.len() - i,
    {
        assert(x@.skip(i as int).drop_first() =~= x@.skip(i + 1));
        assert(y@.skip(i as int).drop_first() =~= y@.skip(i + 1));
        i += 1;
    }
    if i == x.len() {
        i < y.len()
    } else if i == y.len() {
        false
    } else {
        x[i] < y[i]
    }
}

/// Insert `s` into the increasing list `v`, unless it is already there.
pub fn insert_sorted(v: &mut Vec<String>, s: String)
    requires
        strs_increasing(views(old(v)@)),
    ensures
        strs_increasing(views(final(v)@)),
        forall|x: Seq<char>|
            #[trigger] views(final(v)@).contains(x) <==> (views(old(v)@).contains(x) || x == s@),
{
    let ghost old_v = views(v@);
    let mut idx: usize = 0;
    while idx < v.len() && str_less(v[idx].as_str(), s.as_str())
        invariant
            idx <= v@.len(),
            old_v == views(v@),
            forall|k: int| 0 <= k < idx ==> str_lt(#[trigger] old_v[k], s@),
        decreases v@.len() - idx,
    {
        idx += 1;
    }
    if idx < v.len() && v[idx] == s {
        proof {
            assert(views(v@)[idx as int] == s@);
        }
        return;
    }
    proof {
        if idx < old_v.len() {
            assert(old_v[idx as int] != s@);
            lemma_str_lt_total(old_v[idx as int], s@);
        }
    }
    let ghost sv = s@;
    v.insert(idx, s);
    let ghost new_v = views(v@);
    proof {
        assert forall|k: int| 0 <= k < new_v.len() implies #[trigger] new_v[k] == (if k < idx {
            old_v[k]
        } else if k == idx {
            sv
        } else {
            old_v[k - 1]
        }) by {}
        assert forall|a: int, b: int| 0 <= a < b < new_v.len() implies str_lt(#[trigger] new_v[a], #[trigger] new_v[b]) by {
            if b == idx {
            } else if a == idx {
                if b - 1 > idx {
                    lemma_str_lt_transitive(sv, old_v[idx as int], old_v[b - 1]);
                }
            } else if a < idx && b > idx {
                if idx < old_v.len() {
                    lemma_str_lt_transitive(old_v[a], sv, old_v[idx as int]);
                }
                assert(str_lt(old_v[a], old_v[b - 1]));
            } else if a > idx {
                assert(str_lt(old_v[a - 1], old_v[b - 1]));
            }
        }
        assert forall|x: Seq<char>| new_v.contains(x) <==> (old_v.contains(x) || x == sv) by {
            if new_v.contains(x) {
                let k = choose|k: int| 0 <= k < new_v.len() && new_v[k] == x;
                if k < idx {
                    assert(old_v[k] == x);
                } else if k > idx {
                    assert(old_v[k - 1] == x);
                }
            }
            if old_v.contains(x) {
                let k = choose|k: int| 0 <= k < old_v.len() && old_v[k] == x;
                if k < idx {
                    assert(new_v[k] == x);
                } else {
                    assert(new_v[k + 1] == x);
                }
            }
            if x == sv {
                assert(new_v[idx as int] == x);
            }
        }
    }
}

} // verus!
