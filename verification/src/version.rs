//! Version-string normalization.
//!
//! RPM version tokens must not contain more than one hyphen, while crate
//! versions may (`1.0.0-beta-2`). The rightmost hyphen is kept as the
//! pre-release separator; every earlier hyphen becomes an underscore.

use vstd::prelude::*;

verus! {

/// Index of the rightmost `'-'` in `s`, or `-1` when `s` has none.
pub open spec fn last_hyphen_index(s: Seq<char>) -> int
    decreases s.len(),
{
    if s.len() == 0 {
        -1
    } else if s.last() == '-' {
        s.len() - 1
    } else {
        last_hyphen_index(s.drop_last())
    }
}

/// Number of `'-'` characters in `s`.
pub open spec fn hyphen_count(s: Seq<char>) -> nat
    decreases s.len(),
{
    if s.len() == 0 {
        0
    } else {
        hyphen_count(s.drop_last()) + if s.last() == '-' {
            1nat
        } else {
            0nat
        }
    }
}

/// The RPM-safe form of a version string: every `'-'` except the rightmost
/// one becomes `'_'`; every other character is kept. A string with at most
/// one hyphen is therefore unchanged.
pub open spec fn rpm_version(s: Seq<char>) -> Seq<char> {
    Seq::new(
        s.len(),
        |i: int|
            if s[i] == '-' && i != last_hyphen_index(s) {
                '_'
            } else {
                s[i]
            },
    )
}

proof fn lemma_last_hyphen_shape(s: Seq<char>)
    ensures
        -1 <= last_hyphen_index(s) < s.len(),
        last_hyphen_index(s) >= 0 ==> s[last_hyphen_index(s)] == '-',
        forall|j: int| last_hyphen_index(s) < j < s.len() ==> s[j] != '-',
    decreases s.len(),
{
    if s.len() > 0 && s.last() != '-' {
        lemma_last_hyphen_shape(s.drop_last());
        assert(forall|j: int|
            last_hyphen_index(s) < j < s.len() - 1 ==> s.drop_last()[j] == s[j]);
    }
}

proof fn lemma_one_hyphen_counts(s: Seq<char>, i: int)
    requires
        0 <= i < s.len(),
        s[i] == '-',
    ensures
        hyphen_count(s) >= 1,
    decreases s.len(),
{
    if i < s.len() - 1 {
        lemma_one_hyphen_counts(s.drop_last(), i);
    }
}

proof fn lemma_two_hyphens_count(s: Seq<char>, i: int, j: int)
    requires
        0 <= i < j < s.len(),
        s[i] == '-',
        s[j] == '-',
    ensures
        hyphen_count(s) >= 2,
    decreases s.len(),
{
    if j == s.len() - 1 {
        lemma_one_hyphen_counts(s.drop_last(), i);
    } else {
        lemma_two_hyphens_count(s.drop_last(), i, j);
    }
}

proof fn lemma_single_hyphen_count(s: Seq<char>, k: int)
    requires
        0 <= k < s.len(),
        s[k] == '-',
        forall|j: int| 0 <= j < s.len() && j != k ==> s[j] != '-',
    ensures
        hyphen_count(s) == 1,
    decreases s.len(),
{
    if k == s.len() - 1 {
        lemma_no_hyphen_count(s.drop_last());
    } else {
        lemma_single_hyphen_count(s.drop_last(), k);
    }
}

proof fn lemma_no_hyphen_count(s: Seq<char>)
    requires
        forall|j: int| 0 <= j < s.len() ==> s[j] != '-',
    ensures
        hyphen_count(s) == 0,
    decreases s.len(),
{
    if s.len() > 0 {
        lemma_no_hyphen_count(s.drop_last());
    }
}

/// Every hyphen of `s` sits at or before the rightmost one.
proof fn lemma_hyphen_at_most_last(s: Seq<char>, i: int)
    requires
        0 <= i < s.len(),
        s[i] == '-',
    ensures
        i <= last_hyphen_index(s),
{
    lemma_last_hyphen_shape(s);
}

/// A version string with at most one hyphen is returned unchanged.
pub proof fn lemma_rpm_version_few_hyphens(s: Seq<char>)
    requires
        hyphen_count(s) <= 1,
    ensures
        rpm_version(s) == s,
{
    assert forall|i: int| 0 <= i < s.len() implies rpm_version(s)[i] == s[i] by {
        if s[i] == '-' && i != last_hyphen_index(s) {
            lemma_hyphen_at_most_last(s, i);
            lemma_last_hyphen_shape(s);
            lemma_two_hyphens_count(s, i, last_hyphen_index(s));
        }
    }
    assert(rpm_version(s) =~= s);
}

/// A version string with two or more hyphens keeps exactly its rightmost
/// hyphen; every other hyphen, and nothing else, is rewritten to `'_'`.
pub proof fn lemma_rpm_version_many_hyphens(s: Seq<char>)
    requires
        hyphen_count(s) >= 2,
    ensures
        rpm_version(s).len() == s.len(),
        0 <= last_hyphen_index(s) < s.len(),
        s[last_hyphen_index(s)] == '-',
        rpm_version(s)[last_hyphen_index(s)] == '-',
        forall|i: int|
            0 <= i < s.len() ==> (rpm_version(s)[i] != s[i] <==> (s[i] == '-' && i
                != last_hyphen_index(s))),
        forall|i: int|
            0 <= i < s.len() && s[i] == '-' && i != last_hyphen_index(s) ==> rpm_version(s)[i]
                == '_',
        hyphen_count(rpm_version(s)) == 1,
{
    lemma_last_hyphen_shape(s);
    if last_hyphen_index(s) == -1 {
        lemma_no_hyphen_count(s);
    }
    let last = last_hyphen_index(s);
    assert forall|i: int|
        0 <= i < s.len() implies (rpm_version(s)[i] != s[i] <==> (s[i] == '-' && i != last)) by {
        if s[i] == '-' && i != last {
            assert(rpm_version(s)[i] == '_');
        }
    }
    assert forall|j: int| 0 <= j < s.len() && j != last implies rpm_version(s)[j] != '-' by {
        if s[j] == '-' {
            lemma_hyphen_at_most_last(s, j);
        }
    }
    lemma_single_hyphen_count(rpm_version(s), last);
}

/// Rightmost position of `'-'` in `v`, if it has one.
fn find_last_hyphen(v: &str) -> (r: Option<usize>)
    ensures
        match r {
            Some(i) => i == last_hyphen_index(v@),
            None => last_hyphen_index(v@) == -1,
        },
{
    let n = v.unicode_len();
    let mut i: usize = n;
    proof {
        assert(v@.take(n as int) =~= v@);
    }
    while i > 0
        invariant
            i <= n,
            n == v@.len(),
            last_hyphen_index(v@) == last_hyphen_index(v@.take(i as int)),
        decreases i,
    {
        let c = v.get_char(i - 1);
        proof {
            assert(v@.take(i as int).last() == v@[i - 1]);
        }
        if c == '-' {
            return Some(i - 1);
        }
        proof {
            assert(v@.take(i as int).drop_last() =~= v@.take(i as int - 1));
        }
        i = i - 1;
    }
    proof {
        assert(v@.take(0) =~= Seq::<char>::empty());
    }
    None
}

/// Rewrites every hyphen but the rightmost one to an underscore, producing
/// an RPM-safe version token. Strings with at most one hyphen come back
/// unchanged.
pub fn normalize_version(v: &str) -> (r: String)
    ensures
        r@ == rpm_version(v@),
{
    let last = find_last_hyphen(v);
    let n = v.unicode_len();
    let mut out = String::new();
    let mut i: usize = 0;
    while i < n
        invariant
            i <= n,
            n == v@.len(),
            match last {
                Some(l) => l == last_hyphen_index(v@),
                None => last_hyphen_index(v@) == -1,
            },
            out@ =~= rpm_version(v@).take(i as int),
        decreases n - i,
    {
        let c = v.get_char(i);
        let keep = match last {
            Some(l) => c != '-' || i == l,
            None => true,
        };
        if keep {
            out.append(v.substring_char(i, i + 1));
            proof {
                assert(v@.subrange(i as int, i as int + 1) =~= seq![v@[i as int]]);
                lemma_last_hyphen_shape(v@);
                assert(rpm_version(v@)[i as int] == v@[i as int]);
            }
        } else {
            out.append("_");
            proof {
                reveal_strlit("_");
                assert("_"@ =~= seq!['_']);
                assert(rpm_version(v@)[i as int] == '_');
            }
        }
        proof {
            assert(rpm_version(v@).take(i as int + 1) =~= rpm_version(v@).take(i as int).push(
                rpm_version(v@)[i as int],
            ));
        }
        i = i + 1;
    }
    proof {
        assert(rpm_version(v@).take(n as int) =~= rpm_version(v@));
    }
    out
}

} // verus!
