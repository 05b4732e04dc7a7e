//! Small verified text utilities: substring search, left-to-right
//! replacement, and the lexicographic order on character sequences.

use vstd::prelude::*;

verus! {

/// `pat` occurs in `s` starting at position `i`.
pub open spec fn occurs_at(s: Seq<char>, pat: Seq<char>, i: int) -> bool {
    0 <= i && i + pat.len() <= s.len() && s.subrange(i, i + pat.len()) == pat
}

/// `pat` occurs somewhere in `s`.
pub open spec fn contains_seq(s: Seq<char>, pat: Seq<char>) -> bool {
    exists|i: int| occurs_at(s, pat, i)
}

/// Every occurrence of `pat` in `s` replaced by `rep`, scanning left to
/// right without overlap, exactly as `str::replace` does. An empty pattern
/// replaces nothing.
pub open spec fn replace_all(s: Seq<char>, pat: Seq<char>, rep: Seq<char>) -> Seq<char>
    decreases s.len(),
{
    if pat.len() == 0 || s.len() < pat.len() {
        s
    } else if s.take(pat.len() as int) == pat {
        rep + replace_all(s.skip(pat.len() as int), pat, rep)
    } else {
        seq![s[0]] + replace_all(s.skip(1), pat, rep)
    }
}

/// Strict lexicographic order on character sequences, by Unicode scalar
/// value; a proper prefix sorts before its extensions. This is the order in
/// which Rust compares strings.
pub open spec fn str_lt(a: Seq<char>, b: Seq<char>) -> bool
    decreases a.len(),
{
    if b.len() == 0 {
        false
    } else if a.len() == 0 {
        true
    } else if a[0] != b[0] {
        (a[0] as u32) < (b[0] as u32)
    } else {
        str_lt(a.skip(1), b.skip(1))
    }
}

pub proof fn lemma_str_lt_irreflexive(a: Seq<char>)
    ensures
        !str_lt(a, a),
    decreases a.len(),
{
    if a.len() > 0 {
        lemma_str_lt_irreflexive(a.skip(1));
    }
}

pub proof fn lemma_str_lt_connected(a: Seq<char>, b: Seq<char>)
    ensures
        !str_lt(a, b) && !str_lt(b, a) ==> a == b,
    decreases a.len(),
{
    if a.len() == 0 && b.len() == 0 {
        assert(a =~= b);
    } else if a.len() > 0 && b.len() > 0 {
        if a[0] != b[0] {
            if !str_lt(a, b) && !str_lt(b, a) {
                vstd::utf8::char_u32_cast(a[0], a[0] as u32);
                vstd::utf8::char_u32_cast(b[0], b[0] as u32);
                assert(a[0] as u32 == b[0] as u32);
            }
        } else {
            lemma_str_lt_connected(a.skip(1), b.skip(1));
            if !str_lt(a, b) && !str_lt(b, a) {
                assert(a =~= seq![a[0]] + a.skip(1));
                assert(b =~= seq![b[0]] + b.skip(1));
            }
        }
    }
}

pub proof fn lemma_str_lt_asymmetric(a: Seq<char>, b: Seq<char>)
    ensures
        str_lt(a, b) ==> !str_lt(b, a),
    decreases a.len(),
{
    if a.len() > 0 && b.len() > 0 && a[0] == b[0] {
        lemma_str_lt_asymmetric(a.skip(1), b.skip(1));
    }
}

pub proof fn lemma_str_lt_transitive(a: Seq<char>, b: Seq<char>, c: Seq<char>)
    ensures
        str_lt(a, b) && str_lt(b, c) ==> str_lt(a, c),
    decreases a.len(),
{
    if a.len() > 0 && b.len() > 0 && c.len() > 0 {
        lemma_str_lt_transitive(a.skip(1), b.skip(1), c.skip(1));
    }
}

/// Whether `a` sorts strictly before `b` in lexicographic order.
pub fn str_lt_exec(a: &str, b: &str) -> (r: bool)
    ensures
        r == str_lt(a@, b@),
{
    let an = a.unicode_len();
    let bn = b.unicode_len();
    let mut i: usize = 0;
    proof {
        assert(a@.skip(0) =~= a@);
        assert(b@.skip(0) =~= b@);
    }
    while i < an && i < bn
        invariant
            i <= an,
            i <= bn,
            an == a@.len(),
            bn == b@.len(),
            str_lt(a@, b@) == str_lt(a@.skip(i as int), b@.skip(i as int)),
        decreases an - i,
    {
        let ca = a.get_char(i);
        let cb = b.get_char(i);
        if ca != cb {
            return (ca as u32) < (cb as u32);
        }
        proof {
            assert(a@.skip(i as int).skip(1) =~= a@.skip(i as int + 1));
            assert(b@.skip(i as int).skip(1) =~= b@.skip(i as int + 1));
        }
        i = i + 1;
    }
    an < bn
}

/// `pat` matches the characters of `s` starting at position `i`.
fn matches_at(s: &str, i: usize, pat: &str) -> (r: bool)
    requires
        i + pat@.len() <= s@.len(),
    ensures
        r == (s@.subrange(i as int, i as int + pat@.len()) == pat@),
{
    let n = s.unicode_len();
    let p = pat.unicode_len();
    let mut j: usize = 0;
    while j < p
        invariant
            j <= p,
            n == s@.len(),
            p == pat@.len(),
            i + p <= n,
            forall|k: int| 0 <= k < j ==> s@[i + k] == pat@[k],
        decreases p - j,
    {
        if s.get_char(i + j) != pat.get_char(j) {
            proof {
                assert(s@.subrange(i as int, i as int + pat@.len())[j as int] != pat@[j as int]);
            }
            return false;
        }
        j = j + 1;
    }
    proof {
        assert(s@.subrange(i as int, i as int + pat@.len()) =~= pat@);
    }
    true
}

/// Whether `pat` occurs anywhere in `s`.
pub fn contains_str(s: &str, pat: &str) -> (r: bool)
    ensures
        r == contains_seq(s@, pat@),
{
    let n = s.unicode_len();
    let p = pat.unicode_len();
    if p > n {
        proof {
            assert(forall|i: int| !occurs_at(s@, pat@, i));
        }
        return false;
    }
    if p == 0 {
        proof {
            assert(s@.subrange(0, 0) =~= pat@);
            assert(occurs_at(s@, pat@, 0));
        }
        return true;
    }
    let mut i: usize = 0;
    while i <= n - p
        invariant
            1 <= p <= n,
            n == s@.len(),
            p == pat@.len(),
            i <= n - p + 1,
            forall|k: int| 0 <= k < i ==> !occurs_at(s@, pat@, k),
        decreases n - i,
    {
        if matches_at(s, i, pat) {
            proof {
                assert(occurs_at(s@, pat@, i as int));
            }
            return true;
        }
        i = i + 1;
    }
    proof {
        assert(forall|k: int| k > n - p ==> !occurs_at(s@, pat@, k));
    }
    false
}

/// Every occurrence of `pat` in `s` replaced by `rep`, scanning left to
/// right without overlap. An empty pattern replaces nothing.
pub fn replace_str(s: &str, pat: &str, rep: &str) -> (r: String)
    ensures
        r@ == replace_all(s@, pat@, rep@),
{
    let n = s.unicode_len();
    let p = pat.unicode_len();
    if p == 0 {
        return s.to_owned();
    }
    let mut out = String::new();
    let mut i: usize = 0;
    proof {
        assert(s@.skip(0) =~= s@);
        assert(Seq::<char>::empty() + replace_all(s@, pat@, rep@) =~= replace_all(
            s@,
            pat@,
            rep@,
        ));
    }
    while i < n
        invariant
            i <= n,
            n == s@.len(),
            p == pat@.len(),
            1 <= p,
            replace_all(s@, pat@, rep@) == out@ + replace_all(s@.skip(i as int), pat@, rep@),
        decreases n - i,
    {
        let ghost tail = s@.skip(i as int);
        if n - i >= p && matches_at(s, i, pat) {
            out.append(rep);
            proof {
                assert(tail.take(p as int) =~= s@.subrange(i as int, i as int + p));
                assert(tail.skip(p as int) =~= s@.skip(i as int + p));
                assert(replace_all(tail, pat@, rep@) == rep@ + replace_all(
                    s@.skip(i as int + p),
                    pat@,
                    rep@,
                ));
            }
            i = i + p;
        } else {
            out.append(s.substring_char(i, i + 1));
            proof {
                assert(s@.subrange(i as int, i as int + 1) =~= seq![s@[i as int]]);
                assert(tail.skip(1) =~= s@.skip(i as int + 1));
                if tail.len() >= p {
                    assert(tail.take(p as int) =~= s@.subrange(i as int, i as int + p));
                    assert(tail.take(p as int) != pat@);
                }
                assert(tail =~= seq![s@[i as int]] + tail.skip(1));
                assert(replace_all(tail, pat@, rep@) == seq![s@[i as int]] + replace_all(
                    s@.skip(i as int + 1),
                    pat@,
                    rep@,
                ));
            }
            i = i + 1;
        }
    }
    proof {
        assert(s@.skip(n as int) =~= Seq::<char>::empty());
        assert(out@ + Seq::<char>::empty() =~= out@);
    }
    out
}

} // verus!
