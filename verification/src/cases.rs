//! Case identities and deterministic ordering.
//!
//! A case is identified by its input path, kept as raw path bytes.
//! Reports and persisted state are always in ascending path order, so
//! the order on paths — byte-lexicographic — and the sort that
//! establishes it are the load-bearing pieces here.

use vstd::prelude::*;

verus! {

/// One completed case: the case's input path (raw path bytes) and the
/// score the judge reported for it. The same shape serves as an entry
/// of the persisted best-score baseline.
#[derive(Debug)]
pub struct CaseScore {
    pub path: Vec<u8>,
    pub score: u64,
}

/// Byte-lexicographic `<=` on paths, comparing from position `i` on.
pub open spec fn lex_le_from(a: Seq<u8>, b: Seq<u8>, i: int) -> bool
    decreases a.len() - i,
{
    if i >= a.len() {
        true
    } else if i >= b.len() {
        false
    } else if a[i] < b[i] {
        true
    } else if a[i] > b[i] {
        false
    } else {
        lex_le_from(a, b, i + 1)
    }
}

/// Byte-lexicographic `<=` on paths.
pub open spec fn lex_le(a: Seq<u8>, b: Seq<u8>) -> bool {
    lex_le_from(a, b, 0)
}

/// The sequence is in ascending path order.
pub open spec fn paths_sorted(s: Seq<CaseScore>) -> bool {
    forall|i: int, j: int| 0 <= i < j < s.len() ==> lex_le(s[i].path@, s[j].path@)
}

/// No two entries share a path. Case sets have this by construction:
/// each case is a distinct file.
pub open spec fn paths_distinct(s: Seq<CaseScore>) -> bool {
    forall|i: int, j: int| 0 <= i < j < s.len() ==> s[i].path@ != s[j].path@
}

/// Any two paths are ordered one way or the other.
proof fn lemma_lex_connected(a: Seq<u8>, b: Seq<u8>, i: int)
    ensures
        lex_le_from(a, b, i) || lex_le_from(b, a, i),
    decreases a.len() - i,
{
    if i < a.len() && i < b.len() && a[i] == b[i] {
        lemma_lex_connected(a, b, i + 1);
    }
}

/// Paths ordered both ways are equal from `i` on.
proof fn lemma_lex_antisymmetric(a: Seq<u8>, b: Seq<u8>, i: int)
    requires
        0 <= i <= a.len(),
        0 <= i <= b.len(),
        lex_le_from(a, b, i),
        lex_le_from(b, a, i),
    ensures
        a.len() == b.len(),
        forall|k: int| i <= k < a.len() ==> a[k] == b[k],
    decreases a.len() - i,
{
    if i < a.len() {
        lemma_lex_antisymmetric(a, b, i + 1);
    }
}

/// The path order is transitive.
proof fn lemma_lex_transitive(a: Seq<u8>, b: Seq<u8>, c: Seq<u8>, i: int)
    requires
        lex_le_from(a, b, i),
        lex_le_from(b, c, i),
    ensures
        lex_le_from(a, c, i),
    decreases a.len() - i,
{
    if i < a.len() && i < b.len() && i < c.len() && a[i] == b[i] && b[i] == c[i] {
        lemma_lex_transitive(a, b, c, i + 1);
    }
}

/// Compares two paths in byte-lexicographic order.
pub fn bytes_le(a: &Vec<u8>, b: &Vec<u8>) -> (r: bool)
    ensures
        r == lex_le(a@, b@),
{
    let mut i: usize = 0;
    while i < a.len() && i < b.len()
        invariant
            i <= a@.len(),
            i <= b@.len(),
            lex_le(a@, b@) == lex_le_from(a@, b@, i as int),
        decreases a@.len() - i,
    {
        if a[i] < b[i] {
            return true;
        }
        if a[i] > b[i] {
            return false;
        }
        i = i + 1;
    }
    i == a.len()
}

/// Sorts the cases into ascending path order. The result holds exactly
/// the cases that went in, whatever order the parallel phase finished
/// them in.
pub fn sort_by_path(v: &mut Vec<CaseScore>)
    ensures
        paths_sorted(final(v)@),
        final(v)@.to_multiset() == old(v)@.to_multiset(),
{
    broadcast use vstd::seq_lib::group_to_multiset_ensures;

    if v.len() <= 1 {
        return ;
    }
    let mut idx: usize = 1;
    while idx < v.len()
        invariant
            1 <= idx <= v@.len(),
            paths_sorted(v@.take(idx as int)),
            v@.to_multiset() == old(v)@.to_multiset(),
        decreases v@.len() - idx,
    {
        broadcast use vstd::seq_lib::group_to_multiset_ensures;

        let ghost before = v@;
        let mut p: usize = 0;
        while p < idx && bytes_le(&v[p].path, &v[idx].path)
            invariant
                p <= idx < v@.len(),
                v@ == before,
                forall|k: int| 0 <= k < p ==> lex_le(v@[k].path@, v@[idx as int].path@),
            decreases idx - p,
        {
            p = p + 1;
        }
        proof {
            if p < idx {
                lemma_lex_connected(v@[p as int].path@, v@[idx as int].path@, 0);
            }
        }
        let x = v.remove(idx);
        v.insert(p, x);
        proof {
            broadcast use vstd::multiset::group_multiset_axioms;

            let after = v@;
            let xi = idx as int;
            let pi = p as int;
            assert(before.to_multiset().contains(x)) by {
                assert(before[xi] == x);
                assert(before.contains(x));
            }
            assert(after.to_multiset() =~= before.to_multiset()) by {
                assert(after.to_multiset() =~= before.to_multiset().remove(x).insert(x));
            }
            before.remove_ensures(xi);
            before.remove(xi).insert_ensures(pi, x);
            // how the new prefix reads off the old one
            assert(forall|k: int| 0 <= k < pi ==> after[k] == before[k]);
            assert(after[pi] == x);
            assert(forall|k: int| pi < k <= xi ==> after[k] == before[k - 1]);
            // the old prefix, pointwise sorted
            assert forall|r: int, s: int|
                #![trigger before[r], before[s]]
                0 <= r < s < xi implies lex_le(
                before[r].path@,
                before[s].path@,
            ) by {
                assert(before.take(xi)[r] == before[r]);
                assert(before.take(xi)[s] == before[s]);
                assert(lex_le(before.take(xi)[r].path@, before.take(xi)[s].path@));
            }
            // the inserted element precedes whatever it displaced
            if pi < xi {
                lemma_lex_connected(x.path@, before[pi].path@, 0);
                assert(lex_le(x.path@, before[pi].path@));
            }
            assert forall|r: int, s: int|
                #![trigger after.take(xi + 1)[r], after.take(xi + 1)[s]]
                0 <= r < s <= xi implies lex_le(
                after.take(xi + 1)[r].path@,
                after.take(xi + 1)[s].path@,
            ) by {
                assert(after.take(xi + 1)[r] == after[r]);
                assert(after.take(xi + 1)[s] == after[s]);
                if r == pi && s > pi {
                    if s > pi + 1 {
                        lemma_lex_transitive(x.path@, before[pi].path@, before[s - 1].path@, 0);
                    }
                }
                assert(lex_le(after[r].path@, after[s].path@));
            }
            assert(paths_sorted(after.take(xi + 1)));
        }
        idx = idx + 1;
    }
    proof {
        assert(v@.take(v@.len() as int) =~= v@);
    }
}

/// The base name of a path: everything after its last `/` separator,
/// or the whole path when it holds none.
pub open spec fn basename_of(p: Seq<u8>) -> Seq<u8>
    decreases p.len(),
{
    if p.len() == 0 {
        p
    } else if p.last() == 47 {
        Seq::empty()
    } else {
        basename_of(p.drop_last()).push(p.last())
    }
}

/// The path a case's output file is written to: the input's base name
/// under the output folder, joined with a `/` separator unless the
/// folder already ends in one.
pub open spec fn joined_output_path(out_folder: Seq<u8>, input: Seq<u8>) -> Seq<u8> {
    if out_folder.len() == 0 {
        basename_of(input)
    } else if out_folder.last() == 47 {
        out_folder + basename_of(input)
    } else {
        out_folder + seq![47u8] + basename_of(input)
    }
}

/// The base name is the suffix that follows the last separator.
proof fn lemma_basename_suffix(p: Seq<u8>, s: int)
    requires
        0 <= s <= p.len(),
        s == 0 || p[s - 1] == 47,
        forall|k: int| s <= k < p.len() ==> p[k] != 47,
    ensures
        basename_of(p) == p.subrange(s, p.len() as int),
    decreases p.len(),
{
    if s == p.len() {
        assert(p.subrange(s, p.len() as int) =~= Seq::empty());
        if p.len() > 0 {
            assert(basename_of(p) =~= Seq::empty());
        }
    } else {
        assert(p.last() != 47);
        lemma_basename_suffix(p.drop_last(), s);
        assert(p.drop_last().subrange(s, p.len() - 1).push(p.last()) =~= p.subrange(
            s,
            p.len() as int,
        ));
    }
}

/// Derives the output path of a case: the input's base name under the
/// output folder.
pub fn case_output_path(out_folder: &Vec<u8>, input: &Vec<u8>) -> (r: Vec<u8>)
    ensures
        r@ == joined_output_path(out_folder@, input@),
{
    let n = input.len();
    let mut s: usize = n;
    while s > 0 && input[s - 1] != 47
        invariant
            s <= n == input@.len(),
            forall|k: int| s <= k < n ==> input@[k] != 47,
        decreases s,
    {
        s = s - 1;
    }
    proof {
        lemma_basename_suffix(input@, s as int);
    }
    let mut r: Vec<u8> = vstd::slice::slice_to_vec(out_folder.as_slice());
    if out_folder.len() > 0 && out_folder[out_folder.len() - 1] != 47 {
        r.push(47);
    }
    let ghost stem = r@;
    let mut k: usize = s;
    while k < n
        invariant
            s <= k <= n == input@.len(),
            r@ =~= stem + input@.subrange(s as int, k as int),
        decreases n - k,
    {
        r.push(input[k]);
        k = k + 1;
    }
    proof {
        assert(r@ =~= stem + input@.subrange(s as int, n as int));
        assert(r@ =~= joined_output_path(out_folder@, input@));
    }
    r
}

/// Ascending path order is deterministic: two sorted sequences that
/// hold the same cases — however the runs that produced them were
/// ordered — are the same sequence, as long as no path repeats.
pub proof fn lemma_sorted_by_path_unique(a: Seq<CaseScore>, b: Seq<CaseScore>)
    requires
        paths_sorted(a),
        paths_sorted(b),
        paths_distinct(a),
        paths_distinct(b),
        a.to_multiset() == b.to_multiset(),
    ensures
        a == b,
    decreases a.len(),
{
    broadcast use vstd::seq_lib::group_to_multiset_ensures;
    broadcast use vstd::multiset::group_multiset_axioms;

    if a.len() == 0 {
        assert(a.len() == a.to_multiset().len());
        assert(b.len() == b.to_multiset().len());
        assert(a =~= b);
    } else {
        assert(a.len() == a.to_multiset().len());
        assert(b.len() == b.to_multiset().len());
        assert(a.to_multiset().contains(a[0]));
        assert(b.contains(a[0]));
        let j = choose|j: int| 0 <= j < b.len() && b[j] == a[0];
        assert(b.to_multiset().contains(b[0]));
        assert(a.contains(b[0]));
        let k = choose|k: int| 0 <= k < a.len() && a[k] == b[0];
        if j == 0 {
            assert(a[0] == b[0]);
        } else if k == 0 {
            assert(a[0] == b[0]);
        } else {
            // heads ordered both ways: their paths agree, which two
            // distinct entries of one sequence cannot
            assert(lex_le(b[0].path@, b[j].path@));
            assert(lex_le(a[0].path@, a[k].path@));
            lemma_lex_antisymmetric(a[0].path@, b[0].path@, 0);
            assert(a[0].path@ =~= b[0].path@);
            assert(b[0].path@ == b[j].path@);
            assert(false);
        }
        assert(a[0] == b[0]);
        let a1 = a.drop_first();
        let b1 = b.drop_first();
        assert(a.to_multiset() =~= a1.to_multiset().insert(a[0])) by {
            assert(a1 =~= a.remove(0));
        }
        assert(b.to_multiset() =~= b1.to_multiset().insert(b[0])) by {
            assert(b1 =~= b.remove(0));
        }
        assert forall|e: CaseScore| #[trigger] a1.to_multiset().count(e) == b1.to_multiset().count(
            e,
        ) by {
            if e == a[0] {
                vstd::multiset::lemma_insert_increases_count_by_1(a1.to_multiset(), a[0]);
                vstd::multiset::lemma_insert_increases_count_by_1(b1.to_multiset(), b[0]);
            } else {
                vstd::multiset::lemma_insert_other_elements_unchanged(a1.to_multiset(), a[0], e);
                vstd::multiset::lemma_insert_other_elements_unchanged(b1.to_multiset(), b[0], e);
            }
            assert(a1.to_multiset().insert(a[0]).count(e) == b1.to_multiset().insert(b[0]).count(e));
        }
        assert(a1.to_multiset() =~= b1.to_multiset());
        assert(paths_sorted(a1) && paths_distinct(a1)) by {
            assert(forall|r: int| 0 <= r < a1.len() ==> a1[r] == a[r + 1]);
        }
        assert(paths_sorted(b1) && paths_distinct(b1)) by {
            assert(forall|r: int| 0 <= r < b1.len() ==> b1[r] == b[r + 1]);
        }
        lemma_sorted_by_path_unique(a1, b1);
        assert forall|r: int| 0 <= r < a.len() implies a[r] == b[r] by {
            if r > 0 {
                assert(a1[r - 1] == a[r]);
                assert(b1[r - 1] == b[r]);
                assert(a1[r - 1] == b1[r - 1]);
            }
        }
        assert(a =~= b);
    }
}

} // verus!
