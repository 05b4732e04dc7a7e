//! Report emission: one `Provides:` line per package in lockfile order, and
//! one aggregate `License:` line over the lexicographically sorted,
//! deduplicated set of resolved licenses.

use crate::text::{
    lemma_str_lt_asymmetric, lemma_str_lt_connected, lemma_str_lt_irreflexive,
    lemma_str_lt_transitive, str_lt, str_lt_exec,
};
use crate::version::rpm_version;
use crate::version::normalize_version;
use vstd::prelude::*;

verus! {

/// One entry of the lockfile, as handed in by the loader.
pub struct PackageRecord {
    pub name: String,
    pub version: String,
    pub dependencies: Option<Vec<String>>,
    pub source: Option<String>,
    pub checksum: Option<String>,
}

/// The character sequences of a sequence of strings.
pub open spec fn views(ls: Seq<String>) -> Seq<Seq<char>> {
    ls.map_values(|s: String| s@)
}

/// `ls` is strictly ascending in lexicographic order (hence free of
/// duplicates).
pub open spec fn strictly_sorted(ls: Seq<Seq<char>>) -> bool {
    forall|i: int, j: int| 0 <= i < j < ls.len() ==> str_lt(ls[i], ls[j])
}

/// `x` placed into the strictly sorted sequence `ls`: before the first
/// element it sorts under, and not at all when it is already present.
pub open spec fn insert_license(ls: Seq<Seq<char>>, x: Seq<char>) -> Seq<Seq<char>>
    decreases ls.len(),
{
    if ls.len() == 0 {
        seq![x]
    } else if x == ls[0] {
        ls
    } else if str_lt(x, ls[0]) {
        seq![x] + ls
    } else {
        seq![ls[0]] + insert_license(ls.skip(1), x)
    }
}

/// The lexicographically sorted, deduplicated form of `ls`.
pub open spec fn sorted_dedup(ls: Seq<Seq<char>>) -> Seq<Seq<char>>
    decreases ls.len(),
{
    if ls.len() == 0 {
        Seq::empty()
    } else {
        insert_license(sorted_dedup(ls.drop_last()), ls.last())
    }
}

proof fn lemma_insert_license_shape(ls: Seq<Seq<char>>, x: Seq<char>)
    requires
        strictly_sorted(ls),
    ensures
        strictly_sorted(insert_license(ls, x)),
        forall|y: Seq<char>|
            #[trigger] insert_license(ls, x).contains(y) ==> (ls.contains(y) || y == x),
        forall|y: Seq<char>| #[trigger] ls.contains(y) ==> insert_license(ls, x).contains(y),
        insert_license(ls, x).contains(x),
    decreases ls.len(),
{
    let r = insert_license(ls, x);
    if ls.len() == 0 {
        assert forall|y: Seq<char>| r.contains(y) implies (ls.contains(y) || y == x) by {
            assert(r[choose|i: int| 0 <= i < r.len() && r[i] == y] == x);
        }
        assert(r.contains(x)) by {
            assert(r[0] == x);
        }
    } else if x == ls[0] {
        assert(ls.contains(x)) by {
            assert(ls[0] == x);
        }
    } else if str_lt(x, ls[0]) {
        assert forall|i: int, j: int| 0 <= i < j < r.len() implies str_lt(r[i], r[j]) by {
            if i == 0 {
                if j > 1 {
                    lemma_str_lt_transitive(x, ls[0], ls[j - 1]);
                }
            }
        }
        assert forall|y: Seq<char>| ls.contains(y) || y == x implies r.contains(y) by {
            if y == x {
                assert(r[0] == y);
            } else {
                let i = choose|i: int| 0 <= i < ls.len() && ls[i] == y;
                assert(r[i + 1] == y);
            }
        }
        assert forall|y: Seq<char>| r.contains(y) implies (ls.contains(y) || y == x) by {
            let i = choose|i: int| 0 <= i < r.len() && r[i] == y;
            if i > 0 {
                assert(ls[i - 1] == y);
            }
        }
    } else {
        let tail = ls.skip(1);
        assert(strictly_sorted(tail)) by {
            assert(forall|i: int, j: int|
                0 <= i < j < tail.len() ==> str_lt(#[trigger] tail[i], #[trigger] tail[j]));
        }
        lemma_insert_license_shape(tail, x);
        let rt = insert_license(tail, x);
        // x sorts after the head, so the head stays strictly least.
        lemma_str_lt_connected(x, ls[0]);
        assert(str_lt(ls[0], x));
        assert forall|k: int| 0 <= k < rt.len() implies str_lt(ls[0], rt[k]) by {
            assert(rt.contains(rt[k]));
            if rt[k] == x {
            } else {
                assert(tail.contains(rt[k]));
                let i = choose|i: int| 0 <= i < tail.len() && tail[i] == rt[k];
                assert(ls[i + 1] == rt[k]);
                assert(str_lt(ls[0], ls[i + 1]));
            }
        }
        assert forall|i: int, j: int| 0 <= i < j < r.len() implies str_lt(r[i], r[j]) by {
            if i == 0 {
                assert(r[j] == rt[j - 1]);
            } else {
                assert(r[i] == rt[i - 1] && r[j] == rt[j - 1]);
            }
        }
        assert forall|y: Seq<char>| ls.contains(y) || y == x implies r.contains(y) by {
            if y == ls[0] {
                assert(r[0] == y);
            } else if y == x {
                assert(rt.contains(y));
                let i = choose|i: int| 0 <= i < rt.len() && rt[i] == y;
                assert(r[i + 1] == y);
            } else {
                let i = choose|i: int| 0 <= i < ls.len() && ls[i] == y;
                if i == 0 {
                    assert(r[0] == y);
                } else {
                    assert(tail[i - 1] == y);
                    assert(tail.contains(y));
                    assert(rt.contains(y));
                    let k = choose|k: int| 0 <= k < rt.len() && rt[k] == y;
                    assert(r[k + 1] == y);
                }
            }
        }
        assert forall|y: Seq<char>| r.contains(y) implies (ls.contains(y) || y == x) by {
            let i = choose|i: int| 0 <= i < r.len() && r[i] == y;
            if i == 0 {
                assert(ls[0] == y);
            } else {
                assert(rt[i - 1] == y);
                assert(rt.contains(y));
                if tail.contains(y) {
                    let k = choose|k: int| 0 <= k < tail.len() && tail[k] == y;
                    assert(ls[k + 1] == y);
                }
            }
        }
    }
}

/// Sorting and deduplicating yields a strictly ascending sequence that
/// holds exactly the licenses of the input.
pub proof fn lemma_sorted_dedup_shape(ls: Seq<Seq<char>>)
    ensures
        strictly_sorted(sorted_dedup(ls)),
        forall|y: Seq<char>| #[trigger] sorted_dedup(ls).contains(y) ==> ls.contains(y),
        forall|y: Seq<char>| #[trigger] ls.contains(y) ==> sorted_dedup(ls).contains(y),
    decreases ls.len(),
{
    if ls.len() == 0 {
    } else {
        lemma_sorted_dedup_shape(ls.drop_last());
        lemma_insert_license_shape(sorted_dedup(ls.drop_last()), ls.last());
        assert(sorted_dedup(ls) == insert_license(sorted_dedup(ls.drop_last()), ls.last()));
        assert forall|y: Seq<char>| ls.contains(y) implies sorted_dedup(ls).contains(y) by {
            let i = choose|i: int| 0 <= i < ls.len() && ls[i] == y;
            if i < ls.len() - 1 {
                assert(ls.drop_last()[i] == y);
                assert(ls.drop_last().contains(y));
            } else {
                assert(y == ls.last());
            }
            assert(insert_license(sorted_dedup(ls.drop_last()), ls.last()).contains(y));
        }
        assert forall|y: Seq<char>| sorted_dedup(ls).contains(y) implies ls.contains(y) by {
            if ls.drop_last().contains(y) {
                let i = choose|i: int| 0 <= i < ls.drop_last().len() && ls.drop_last()[i] == y;
                assert(ls[i] == y);
            } else {
                assert(ls[ls.len() - 1] == y);
            }
        }
    }
}

/// Two strictly sorted sequences with the same members are the same
/// sequence.
proof fn lemma_strictly_sorted_unique(a: Seq<Seq<char>>, b: Seq<Seq<char>>)
    requires
        strictly_sorted(a),
        strictly_sorted(b),
        forall|y: Seq<char>| a.contains(y) <==> b.contains(y),
    ensures
        a == b,
    decreases a.len(),
{
    if a.len() == 0 {
        if b.len() > 0 {
            assert(b.contains(b[0]));
        }
        assert(a =~= b);
    } else {
        assert(a.contains(a[0]));
        assert(b.len() > 0);
        // The heads agree: each head is its sequence's strict minimum.
        let i = choose|i: int| 0 <= i < b.len() && b[i] == a[0];
        let j = choose|j: int| 0 <= j < a.len() && a[j] == b[0];
        assert(b.contains(b[0]));
        if i > 0 && j > 0 {
            assert(str_lt(b[0], b[i]));
            assert(str_lt(a[0], a[j]));
            lemma_str_lt_asymmetric(a[0], b[0]);
        }
        assert(a[0] == b[0]);
        let at = a.skip(1);
        let bt = b.skip(1);
        assert forall|y: Seq<char>| at.contains(y) <==> bt.contains(y) by {
            lemma_tail_members(a, y);
            lemma_tail_members(b, y);
        }
        assert(strictly_sorted(at)) by {
            assert(forall|p: int, q: int|
                0 <= p < q < at.len() ==> str_lt(#[trigger] at[p], #[trigger] at[q]));
        }
        assert(strictly_sorted(bt)) by {
            assert(forall|p: int, q: int|
                0 <= p < q < bt.len() ==> str_lt(#[trigger] bt[p], #[trigger] bt[q]));
        }
        lemma_strictly_sorted_unique(at, bt);
        assert(a =~= seq![a[0]] + at);
        assert(b =~= seq![b[0]] + bt);
    }
}

/// In a strictly sorted sequence the tail holds exactly the members other
/// than the head.
proof fn lemma_tail_members(a: Seq<Seq<char>>, y: Seq<char>)
    requires
        strictly_sorted(a),
        a.len() > 0,
    ensures
        a.skip(1).contains(y) <==> (a.contains(y) && y != a[0]),
{
    let at = a.skip(1);
    if at.contains(y) {
        let k = choose|k: int| 0 <= k < at.len() && at[k] == y;
        assert(a[k + 1] == y);
        assert(str_lt(a[0], a[k + 1]));
        lemma_str_lt_irreflexive(a[0]);
    }
    if a.contains(y) && y != a[0] {
        let k = choose|k: int| 0 <= k < a.len() && a[k] == y;
        assert(at[k - 1] == y);
    }
}

/// `insert_license` walks past every element that sorts strictly before
/// `x`.
proof fn lemma_insert_license_split(ls: Seq<Seq<char>>, x: Seq<char>, j: int)
    requires
        0 <= j <= ls.len(),
        forall|k: int| 0 <= k < j ==> str_lt(ls[k], x),
    ensures
        insert_license(ls, x) == ls.take(j) + insert_license(ls.skip(j), x),
    decreases j,
{
    if j == 0 {
        assert(ls.skip(0) =~= ls);
        assert(ls.take(0) + insert_license(ls, x) =~= insert_license(ls, x));
    } else {
        assert(str_lt(ls[0], x));
        lemma_str_lt_irreflexive(ls[0]);
        lemma_str_lt_asymmetric(ls[0], x);
        assert(x != ls[0] && !str_lt(x, ls[0]));
        let tail = ls.skip(1);
        lemma_insert_license_split(tail, x, j - 1);
        assert(tail.skip(j - 1) =~= ls.skip(j));
        assert(seq![ls[0]] + (tail.take(j - 1) + insert_license(ls.skip(j), x)) =~= ls.take(j)
            + insert_license(ls.skip(j), x));
    }
}

/// Places `x` into the strictly sorted vector `ls`, keeping it sorted and
/// dropping `x` when an equal entry is already there.
fn insert_sorted(ls: &mut Vec<String>, x: String)
    ensures
        views(final(ls)@) == insert_license(views(old(ls)@), x@),
{
    let ghost v = views(old(ls)@);
    let mut j: usize = 0;
    while j < ls.len() && str_lt_exec(ls[j].as_str(), x.as_str())
        invariant
            j <= ls@.len(),
            *ls == *old(ls),
            v == views(ls@),
            forall|k: int| 0 <= k < j ==> str_lt(v[k], x@),
        decreases ls.len() - j,
    {
        j = j + 1;
    }
    proof {
        lemma_insert_license_split(v, x@, j as int);
    }
    if j == ls.len() {
        ls.push(x);
        proof {
            assert(v.skip(j as int) =~= Seq::<Seq<char>>::empty());
            assert(views(final(ls)@) =~= v.take(j as int) + insert_license(
                v.skip(j as int),
                x@,
            ));
        }
    } else if string_eq(&x, &ls[j]) {
        proof {
            assert(v.skip(j as int)[0] == v[j as int]);
            assert(insert_license(v.skip(j as int), x@) == v.skip(j as int));
            assert(v.take(j as int) + v.skip(j as int) =~= v);
            assert(views(final(ls)@) == v);
        }
    } else {
        proof {
            lemma_str_lt_connected(x@, v[j as int]);
            assert(str_lt(x@, v[j as int]));
            assert(v.skip(j as int)[0] == v[j as int]);
            assert(insert_license(v.skip(j as int), x@) == seq![x@] + v.skip(j as int));
        }
        ls.insert(j, x);
        proof {
            assert(views(final(ls)@) =~= v.take(j as int) + (seq![x@] + v.skip(j as int)));
        }
    }
}

/// Whether two strings hold the same characters.
fn string_eq(a: &String, b: &String) -> (r: bool)
    ensures
        r == (a@ == b@),
{
    *a == *b
}

/// Sorts the collected licenses lexicographically and removes duplicates.
pub fn sort_dedup_licenses(ls: Vec<String>) -> (r: Vec<String>)
    ensures
        views(r@) == sorted_dedup(views(ls@)),
{
    let mut r: Vec<String> = Vec::new();
    proof {
        assert(views(ls@).take(0) =~= Seq::<Seq<char>>::empty());
        assert(views(r@) =~= Seq::<Seq<char>>::empty());
    }
    let mut i: usize = 0;
    while i < ls.len()
        invariant
            i <= ls@.len(),
            views(r@) == sorted_dedup(views(ls@).take(i as int)),
        decreases ls@.len() - i,
    {
        let s = ls[i].clone();
        insert_sorted(&mut r, s);
        proof {
            let pre = views(ls@).take(i as int + 1);
            assert(pre.drop_last() =~= views(ls@).take(i as int));
            assert(pre.last() == ls@[i as int]@);
        }
        i = i + 1;
    }
    proof {
        assert(views(ls@).take(ls@.len() as int) =~= views(ls@));
    }
    r
}

/// The sorted, deduplicated license set depends only on which licenses
/// occur, not on how often or in what order they were collected.
pub proof fn lemma_sorted_dedup_order_independent(ls1: Seq<Seq<char>>, ls2: Seq<Seq<char>>)
    requires
        forall|y: Seq<char>| ls1.contains(y) <==> ls2.contains(y),
    ensures
        sorted_dedup(ls1) == sorted_dedup(ls2),
{
    lemma_sorted_dedup_shape(ls1);
    lemma_sorted_dedup_shape(ls2);
    assert forall|y: Seq<char>|
        sorted_dedup(ls1).contains(y) <==> sorted_dedup(ls2).contains(y) by {
        assert(ls1.contains(y) <==> ls2.contains(y));
    }
    lemma_strictly_sorted_unique(sorted_dedup(ls1), sorted_dedup(ls2));
}

/// The text of one `Provides:` declaration.
pub open spec fn provides_line_spec(name: Seq<char>, version: Seq<char>) -> Seq<char> {
    "Provides: bundled(crate("@ + name + ")) = "@ + rpm_version(version)
}

/// The `Provides:` declaration for one package, with its version rewritten
/// to the RPM-safe form.
pub fn provides_line(pkg: &PackageRecord) -> (r: String)
    ensures
        r@ == provides_line_spec(pkg.name@, pkg.version@),
{
    let mut out = String::from_str("Provides: bundled(crate(");
    out.append(pkg.name.as_str());
    out.append(")) = ");
    let ver = normalize_version(pkg.version.as_str());
    out.append(ver.as_str());
    proof {
        assert(out@ =~= provides_line_spec(pkg.name@, pkg.version@));
    }
    out
}

/// The given licenses in order, each followed by ` AND ` — including the
/// last one, so the join keeps a trailing separator.
pub open spec fn joined_licenses(ls: Seq<Seq<char>>) -> Seq<char>
    decreases ls.len(),
{
    if ls.len() == 0 {
        Seq::empty()
    } else {
        ls[0] + " AND "@ + joined_licenses(ls.skip(1))
    }
}

proof fn lemma_joined_licenses_push(ls: Seq<Seq<char>>, x: Seq<char>)
    ensures
        joined_licenses(ls.push(x)) == joined_licenses(ls) + x + " AND "@,
    decreases ls.len(),
{
    if ls.len() == 0 {
        assert(ls.push(x)[0] == x);
        assert(ls.push(x).skip(1) =~= Seq::<Seq<char>>::empty());
        assert(joined_licenses(ls.push(x).skip(1)) == Seq::<char>::empty());
        assert(joined_licenses(ls) == Seq::<char>::empty());
        assert(joined_licenses(ls.push(x)) =~= joined_licenses(ls) + x + " AND "@);
    } else {
        lemma_joined_licenses_push(ls.skip(1), x);
        assert(ls.push(x).skip(1) =~= ls.skip(1).push(x));
        assert(ls.push(x)[0] == ls[0]);
        assert(ls[0] + " AND "@ + (joined_licenses(ls.skip(1)) + x + " AND "@) =~= (ls[0]
            + " AND "@ + joined_licenses(ls.skip(1))) + x + " AND "@);
    }
}

/// The text of the aggregate `License:` line for the given license
/// sequence. An empty sequence yields exactly `License: `.
pub open spec fn license_line_spec(ls: Seq<Seq<char>>) -> Seq<char> {
    "License: "@ + joined_licenses(ls)
}

/// Builds the aggregate `License:` line from the licenses as given, in
/// their order, each followed by ` AND `.
pub fn license_line(licenses: &Vec<String>) -> (r: String)
    ensures
        r@ == license_line_spec(views(licenses@)),
{
    let ghost v = views(licenses@);
    let mut out = String::from_str("License: ");
    proof {
        assert(v.take(0) =~= Seq::<Seq<char>>::empty());
        assert(out@ =~= "License: "@ + joined_licenses(v.take(0)));
    }
    let mut i: usize = 0;
    while i < licenses.len()
        invariant
            i <= licenses@.len(),
            v == views(licenses@),
            out@ == "License: "@ + joined_licenses(v.take(i as int)),
        decreases licenses@.len() - i,
    {
        out.append(licenses[i].as_str());
        out.append(" AND ");
        proof {
            lemma_joined_licenses_push(v.take(i as int), v[i as int]);
            assert(v.take(i as int).push(v[i as int]) =~= v.take(i as int + 1));
            assert(out@ =~= "License: "@ + joined_licenses(v.take(i as int + 1)));
        }
        i = i + 1;
    }
    proof {
        assert(v.take(licenses@.len() as int) =~= v);
    }
    out
}

/// Everything a run writes to its output stream: one `Provides:` line per
/// package, in lockfile order, then the aggregate `License:` line over the
/// lexicographically sorted, deduplicated resolved licenses.
pub fn emit_report(packages: &Vec<PackageRecord>, licenses: Vec<String>) -> (r: Vec<String>)
    ensures
        r@.len() == packages@.len() + 1,
        forall|i: int|
            0 <= i < packages@.len() ==> r@[i]@ == provides_line_spec(
                packages@[i].name@,
                packages@[i].version@,
            ),
        r@[packages@.len() as int]@ == license_line_spec(sorted_dedup(views(licenses@))),
{
    let mut lines: Vec<String> = Vec::new();
    let mut i: usize = 0;
    while i < packages.len()
        invariant
            i <= packages@.len(),
            lines@.len() == i,
            forall|k: int|
                0 <= k < i ==> lines@[k]@ == provides_line_spec(
                    packages@[k].name@,
                    packages@[k].version@,
                ),
        decreases packages@.len() - i,
    {
        let line = provides_line(&packages[i]);
        lines.push(line);
        i = i + 1;
    }
    let sorted = sort_dedup_licenses(licenses);
    let aggregate = license_line(&sorted);
    lines.push(aggregate);
    lines
}

} // verus!
