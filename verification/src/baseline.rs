//! Relative scoring against a persisted best-score baseline.
//!
//! The baseline maps each case path to the best (lowest) score ever
//! observed for it. A run in relative mode looks each case up, scores
//! it relative to its prior best — one billion times the prior best
//! divided by the current score, rounded to the nearest integer, halves
//! up — and then lowers the recorded best wherever the run improved on
//! it. Entries for cases absent from the run are preserved, never
//! pruned. Lower is better, unconditionally.

use std::collections::BTreeMap;
use vstd::prelude::*;

use crate::cases::CaseScore;
use crate::cases::paths_distinct;
use crate::cases::paths_sorted;

verus! {

/// serde_json's error type, opaque here; it is mapped to
/// [`BaselineError`] as soon as a call returns it.
#[verifier::external_type_specification]
#[verifier::external_body]
pub struct ExSerdeJsonError(serde_json::Error);

/// A whole-run failure of relative-scoring mode. Either leaves the
/// persisted baseline untouched.
#[derive(Clone, Copy, Debug, PartialEq, Eq, Structural)]
pub enum BaselineError {
    /// The baseline file was present but not a map of paths to scores.
    Corrupt,
    /// A case scored zero, by which no relative score is defined.
    ZeroScore,
}

/// The map a sequence of baseline entries stands for: later entries
/// win, though entry sequences here never repeat a path.
pub open spec fn entries_map(s: Seq<CaseScore>) -> Map<Seq<u8>, u64>
    decreases s.len(),
{
    if s.len() == 0 {
        Map::empty()
    } else {
        entries_map(s.drop_last()).insert(s.last().path@, s.last().score)
    }
}

/// The best score a case is measured against: its baseline entry if it
/// has one, its own current score otherwise.
pub open spec fn prior_best(base: Map<Seq<u8>, u64>, c: CaseScore) -> u64 {
    if base.dom().contains(c.path@) {
        base[c.path@]
    } else {
        c.score
    }
}

/// The baseline after a run: for every case of the run the smaller of
/// its prior best and its current score; every other entry of `base`
/// kept as it was.
pub open spec fn merged_baseline(base: Map<Seq<u8>, u64>, results: Seq<CaseScore>) -> Map<
    Seq<u8>,
    u64,
>
    decreases results.len(),
{
    if results.len() == 0 {
        base
    } else {
        let m = merged_baseline(base, results.drop_last());
        let r = results.last();
        let b = prior_best(base, r);
        m.insert(r.path@, if b < r.score { b } else { r.score })
    }
}

/// The paths of a sequence of entries, in order.
pub open spec fn entry_paths(s: Seq<CaseScore>) -> Seq<Seq<u8>> {
    s.map_values(|c: CaseScore| c.path@)
}

/// The cases of a run that the baseline holds no entry for, in the
/// order they stand in the run.
pub open spec fn fresh_cases(base: Map<Seq<u8>, u64>, results: Seq<CaseScore>) -> Seq<CaseScore>
    decreases results.len(),
{
    if results.len() == 0 {
        Seq::empty()
    } else {
        let rest = fresh_cases(base, results.drop_last());
        if base.dom().contains(results.last().path@) {
            rest
        } else {
            rest.push(results.last())
        }
    }
}

/// The exact value of one billion times `best` over `current`, rounded
/// to the nearest integer with halves rounded up.
pub open spec fn relative_value(best: u64, current: u64) -> int
    recommends
        current > 0,
{
    (2 * 1_000_000_000 * best + current) / (2 * current)
}

/// What relative scoring yields for one case: the rounded value,
/// saturated at `u64::MAX`.
pub open spec fn relative_score_spec(best: u64, current: u64) -> u64 {
    if relative_value(best, current) > u64::MAX {
        u64::MAX
    } else {
        relative_value(best, current) as u64
    }
}

/// A case that matches its prior best scores exactly one billion.
pub proof fn lemma_relative_score_of_best(score: u64)
    requires
        score > 0,
    ensures
        relative_score_spec(score, score) == 1_000_000_000,
{
    let s = score as int;
    assert(2 * 1_000_000_000 * s + s == (2 * s) * 1_000_000_000 + s) by (nonlinear_arith);
    vstd::arithmetic::div_mod::lemma_div_multiples_vanish_fancy(1_000_000_000, s, 2 * s);
    assert(relative_value(score, score) == 1_000_000_000);
}

/// Two entry sequences that agree pointwise on paths and scores stand
/// for the same map.
proof fn lemma_entries_map_congruent(a: Seq<CaseScore>, b: Seq<CaseScore>)
    requires
        a.len() == b.len(),
        forall|i: int|
            0 <= i < a.len() ==> #[trigger] a[i].path@ == b[i].path@ && a[i].score == b[i].score,
    ensures
        entries_map(a) == entries_map(b),
    decreases a.len(),
{
    if a.len() > 0 {
        assert(forall|i: int| 0 <= i < a.len() - 1 ==> a.drop_last()[i] == a[i]);
        assert(forall|i: int| 0 <= i < b.len() - 1 ==> b.drop_last()[i] == b[i]);
        lemma_entries_map_congruent(a.drop_last(), b.drop_last());
    }
}

/// A path lies in an entry sequence's map exactly when some entry
/// holds it.
proof fn lemma_entries_map_domain(s: Seq<CaseScore>, p: Seq<u8>)
    ensures
        entries_map(s).dom().contains(p) <==> exists|i: int|
            0 <= i < s.len() && #[trigger] s[i].path@ == p,
    decreases s.len(),
{
    if s.len() > 0 {
        lemma_entries_map_domain(s.drop_last(), p);
        if s.last().path@ == p {
            assert(s[s.len() - 1].path@ == p);
        } else if exists|i: int| 0 <= i < s.len() && #[trigger] s[i].path@ == p {
            let i = choose|i: int| 0 <= i < s.len() && #[trigger] s[i].path@ == p;
            assert(s.drop_last()[i] == s[i]);
        }
    }
}

/// With no path repeated, each entry's score is its map's value.
proof fn lemma_entries_map_at(s: Seq<CaseScore>, i: int)
    requires
        paths_distinct(s),
        0 <= i < s.len(),
    ensures
        entries_map(s).dom().contains(s[i].path@),
        entries_map(s)[s[i].path@] == s[i].score,
    decreases s.len(),
{
    if i < s.len() - 1 {
        assert(forall|r: int| 0 <= r < s.len() - 1 ==> s.drop_last()[r] == s[r]);
        lemma_entries_map_at(s.drop_last(), i);
        assert(s[i].path@ != s.last().path@);
    }
}

/// Overwriting one entry's score in place updates its map at that one
/// path.
proof fn lemma_entries_map_update(s: Seq<CaseScore>, j: int, e: CaseScore)
    requires
        paths_distinct(s),
        0 <= j < s.len(),
        e.path@ == s[j].path@,
    ensures
        entries_map(s.update(j, e)) == entries_map(s).insert(e.path@, e.score),
    decreases s.len(),
{
    let su = s.update(j, e);
    if j == s.len() - 1 {
        assert(su.drop_last() =~= s.drop_last());
        assert(su.last() == e);
        assert(entries_map(su) == entries_map(s.drop_last()).insert(e.path@, e.score));
        assert(entries_map(s.drop_last()).insert(s.last().path@, s.last().score).insert(
            e.path@,
            e.score,
        ) =~= entries_map(s.drop_last()).insert(e.path@, e.score));
    } else {
        assert(forall|r: int| 0 <= r < s.len() - 1 ==> s.drop_last()[r] == s[r]);
        lemma_entries_map_update(s.drop_last(), j, e);
        assert(su.drop_last() =~= s.drop_last().update(j, e));
        assert(su.last() == s.last());
        assert(e.path@ != s.last().path@);
        assert(entries_map(s.drop_last()).insert(e.path@, e.score).insert(
            s.last().path@,
            s.last().score,
        ) =~= entries_map(s.drop_last()).insert(s.last().path@, s.last().score).insert(
            e.path@,
            e.score,
        ));
    }
}

/// Merging a run changes nothing at a path none of its cases holds:
/// baseline entries for cases absent from the run are preserved.
pub proof fn lemma_merged_untouched(
    base: Map<Seq<u8>, u64>,
    results: Seq<CaseScore>,
    p: Seq<u8>,
)
    requires
        forall|i: int| 0 <= i < results.len() ==> #[trigger] results[i].path@ != p,
    ensures
        merged_baseline(base, results).dom().contains(p) == base.dom().contains(p),
        base.dom().contains(p) ==> merged_baseline(base, results)[p] == base[p],
    decreases results.len(),
{
    if results.len() > 0 {
        assert(forall|i: int| 0 <= i < results.len() - 1 ==> results.drop_last()[i] == results[i]);
        lemma_merged_untouched(base, results.drop_last(), p);
    }
}

/// What the merged baseline records for a case of the run: the smaller
/// of its prior best and its current score.
pub proof fn lemma_merged_at(base: Map<Seq<u8>, u64>, results: Seq<CaseScore>, i: int)
    requires
        paths_distinct(results),
        0 <= i < results.len(),
    ensures
        merged_baseline(base, results).dom().contains(results[i].path@),
        merged_baseline(base, results)[results[i].path@] == (if prior_best(base, results[i])
            < results[i].score {
            prior_best(base, results[i])
        } else {
            results[i].score
        }),
    decreases results.len(),
{
    if i < results.len() - 1 {
        assert(forall|r: int| 0 <= r < results.len() - 1 ==> results.drop_last()[r] == results[r]);
        lemma_merged_at(base, results.drop_last(), i);
        assert(results[i].path@ != results.last().path@);
    }
}

/// A first run — no prior baseline — relative-scores every case at
/// exactly one billion and records the run's raw scores verbatim.
pub proof fn lemma_first_run(results: Seq<CaseScore>, i: int)
    requires
        paths_distinct(results),
        0 <= i < results.len(),
        results[i].score > 0,
    ensures
        relative_score_spec(
            prior_best(Map::empty(), results[i]),
            results[i].score,
        ) == 1_000_000_000,
        merged_baseline(Map::empty(), results)[results[i].path@] == results[i].score,
{
    lemma_relative_score_of_best(results[i].score);
    lemma_merged_at(Map::empty(), results, i);
}

/// A baseline's entries — and with them the text it renders to — are
/// fixed by its path order and the map it stands for: two entry
/// sequences with the same paths in the same order and the same
/// recorded score per path are the same entries.
pub proof fn lemma_entries_determined(a: Seq<CaseScore>, b: Seq<CaseScore>)
    requires
        paths_distinct(a),
        paths_distinct(b),
        entry_paths(a) == entry_paths(b),
        entries_map(a) == entries_map(b),
    ensures
        entry_views(a) == entry_views(b),
{
    assert(a.len() == b.len()) by {
        assert(entry_paths(a).len() == a.len());
        assert(entry_paths(b).len() == b.len());
        assert(entry_paths(a).len() == entry_paths(b).len());
    }
    assert forall|i: int| 0 <= i < a.len() implies entry_views(a)[i] == entry_views(b)[i] by {
        assert(entry_paths(a)[i] == entry_paths(b)[i]);
        assert(a[i].path@ == b[i].path@);
        lemma_entries_map_at(a, i);
        lemma_entries_map_at(b, i);
    }
    assert(entry_views(a) =~= entry_views(b));
}

/// Computes one case's relative score: one billion times `best` over
/// `current`, rounded to the nearest integer (halves up), saturated at
/// `u64::MAX`.
pub fn relative_score(best: u64, current: u64) -> (r: u64)
    requires
        current > 0,
    ensures
        r == relative_score_spec(best, current),
{
    let b: u128 = best as u128;
    proof {
        assert(2_000_000_000 * (b as int) + (current as int) <= u128::MAX) by (nonlinear_arith)
            requires
                0 <= b as int <= u64::MAX as int,
                0 <= current as int <= u64::MAX as int,
        ;
    }
    let num: u128 = 2_000_000_000u128 * b + (current as u128);
    let den: u128 = 2 * (current as u128);
    let q: u128 = num / den;
    if q > u64::MAX as u128 {
        u64::MAX
    } else {
        q as u64
    }
}

/// Whether two paths hold the same bytes.
fn bytes_eq(a: &Vec<u8>, b: &Vec<u8>) -> (r: bool)
    ensures
        r == (a@ == b@),
{
    if a.len() != b.len() {
        return false;
    }
    let mut i: usize = 0;
    while i < a.len()
        invariant
            i <= a@.len() == b@.len(),
            forall|k: int| 0 <= k < i ==> a@[k] == b@[k],
        decreases a@.len() - i,
    {
        if a[i] != b[i] {
            return false;
        }
        i = i + 1;
    }
    proof {
        assert(a@ =~= b@);
    }
    true
}

/// Finds the entry holding path `p`, if there is one.
fn find_path(entries: &Vec<CaseScore>, p: &Vec<u8>) -> (r: Option<usize>)
    ensures
        match r {
            Some(j) => j < entries@.len() && entries@[j as int].path@ == p@,
            None => forall|i: int| 0 <= i < entries@.len() ==> #[trigger] entries@[i].path@ != p@,
        },
{
    let mut i: usize = 0;
    while i < entries.len()
        invariant
            i <= entries@.len(),
            forall|k: int| 0 <= k < i ==> #[trigger] entries@[k].path@ != p@,
        decreases entries@.len() - i,
    {
        if bytes_eq(&entries[i].path, p) {
            return Some(i);
        }
        i = i + 1;
    }
    None
}

/// A fresh copy of one entry.
fn copy_case(c: &CaseScore) -> (r: CaseScore)
    ensures
        r.path@ == c.path@,
        r.score == c.score,
{
    CaseScore { path: vstd::slice::slice_to_vec(c.path.as_slice()), score: c.score }
}

/// The entries of a baseline, as path bytes and scores.
pub open spec fn entry_views(s: Seq<CaseScore>) -> Seq<(Seq<u8>, u64)> {
    s.map_values(|c: CaseScore| (c.path@, c.score))
}

/// The entries a baseline file's text parses into — a JSON object of
/// string keys to unsigned scores, keys ascending — or nothing, when
/// the text is not such an object.
pub uninterp spec fn parsed_baseline_of(s: Seq<char>) -> Option<Seq<(Seq<u8>, u64)>>;

/// The JSON text a baseline is persisted as.
pub uninterp spec fn baseline_json_of(entries: Seq<(Seq<u8>, u64)>) -> Seq<char>;

/// Relies on serde_json::from_str into a BTreeMap of String to u64:
/// parsing either yields the file's path-to-score map or fails, and a
/// BTreeMap hands its entries back in ascending key order — for String
/// keys, byte-lexicographic order — with no key repeated.
#[verifier::external_body]
fn parse_baseline_json(text: &str) -> (r: Result<Vec<CaseScore>, serde_json::Error>)
    ensures
        match r {
            Ok(v) => {
                &&& parsed_baseline_of(text@) == Some(entry_views(v@))
                &&& paths_sorted(v@)
                &&& paths_distinct(v@)
            },
            Err(_) => parsed_baseline_of(text@) is None,
        },
{
    let m: BTreeMap<String, u64> = serde_json::from_str(text)?;
    Ok(m.into_iter().map(|(k, v)| CaseScore { path: k.into_bytes(), score: v }).collect())
}

/// Relies on serde_json::to_string_pretty on a BTreeMap of String to
/// u64: a stable, human-diffable JSON object, keys in ascending order.
/// Its documentation has serialization fail only for a map with
/// non-string keys or a failing Serialize implementation; a map of
/// String to u64 has neither, so the call returns Ok.
#[verifier::external_body]
fn render_baseline_json(entries: &Vec<CaseScore>) -> (r: Result<String, serde_json::Error>)
    ensures
        r is Ok,
        r matches Ok(s) ==> s@ == baseline_json_of(entry_views(entries@)),
{
    let mut m: BTreeMap<String, u64> = BTreeMap::new();
    for e in entries.iter() {
        m.insert(String::from_utf8_lossy(&e.path).into_owned(), e.score);
    }
    serde_json::to_string_pretty(&m)
}

/// Parses the text of a persisted baseline file. A missing file is the
/// caller's concern — this takes text that was read — but text that is
/// not a path-to-score object fails the whole run: there is no silent
/// fallback to an empty baseline.
pub fn load_baseline(text: &str) -> (r: Result<Vec<CaseScore>, BaselineError>)
    ensures
        match r {
            Ok(v) => {
                &&& parsed_baseline_of(text@) == Some(entry_views(v@))
                &&& paths_sorted(v@)
                &&& paths_distinct(v@)
            },
            Err(e) => e == BaselineError::Corrupt && parsed_baseline_of(text@) is None,
        },
{
    match parse_baseline_json(text) {
        Ok(v) => Ok(v),
        Err(_) => Err(BaselineError::Corrupt),
    }
}

/// Renders the baseline for persistence, replacing the file's old
/// contents in full. Rendering a path-to-score map cannot fail; only
/// writing the file can, and that is the caller's step.
pub fn render_baseline(entries: &Vec<CaseScore>) -> (r: String)
    ensures
        r@ == baseline_json_of(entry_views(entries@)),
{
    match render_baseline_json(entries) {
        Ok(s) => s,
        Err(_) => {
            proof {
                assert(false);
            }
            String::new()
        },
    }
}

/// The outcome of relative-scoring a run.
pub struct RelativeOutcome {
    /// One relative score per case, in the order the results came in.
    pub relative: Vec<CaseScore>,
    /// The baseline as it must now be persisted.
    pub updated: Vec<CaseScore>,
}

/// Scores every case of the run relative to the baseline and computes
/// the baseline to persist: the baseline's entries stay in place, in
/// their order, and cases the baseline did not hold are appended in
/// run order — so the updated entries, and with them the persisted
/// text, are fixed by the inputs alone. Fails — leaving nothing to
/// persist — if any case scored zero, since no relative score is
/// defined for it.
pub fn apply_relative_scores(results: &Vec<CaseScore>, baseline: &Vec<CaseScore>) -> (r: Result<
    RelativeOutcome,
    BaselineError,
>)
    requires
        paths_distinct(results@),
        paths_distinct(baseline@),
    ensures
        match r {
            Ok(out) => {
                &&& out.relative@.len() == results@.len()
                &&& forall|i: int|
                    0 <= i < results@.len() ==> #[trigger] out.relative@[i].path@
                        == results@[i].path@
                &&& forall|i: int|
                    0 <= i < results@.len() ==> #[trigger] out.relative@[i].score
                        == relative_score_spec(
                        prior_best(entries_map(baseline@), results@[i]),
                        results@[i].score,
                    )
                &&& entries_map(out.updated@) == merged_baseline(
                    entries_map(baseline@),
                    results@,
                )
                &&& paths_distinct(out.updated@)
                &&& entry_paths(out.updated@) == entry_paths(baseline@) + entry_paths(
                    fresh_cases(entries_map(baseline@), results@),
                )
            },
            Err(e) => e == BaselineError::ZeroScore,
        },
        (r is Err <==> exists|i: int|
            0 <= i < results@.len() && #[trigger] results@[i].score == 0),
{
    let ghost base = entries_map(baseline@);

    // start from a copy of the baseline
    let mut updated: Vec<CaseScore> = Vec::new();
    let mut bi: usize = 0;
    while bi < baseline.len()
        invariant
            bi <= baseline@.len(),
            updated@.len() == bi,
            forall|i: int|
                0 <= i < bi ==> #[trigger] updated@[i].path@ == baseline@[i].path@
                    && updated@[i].score == baseline@[i].score,
        decreases baseline@.len() - bi,
    {
        let c = copy_case(&baseline[bi]);
        updated.push(c);
        bi = bi + 1;
    }
    proof {
        lemma_entries_map_congruent(updated@, baseline@);
        assert(paths_distinct(updated@));
        assert(merged_baseline(base, results@.take(0)) == base);
        assert(entry_paths(updated@) =~= entry_paths(baseline@) + entry_paths(
            fresh_cases(base, results@.take(0)),
        ));
    }

    let mut relative: Vec<CaseScore> = Vec::new();
    let mut k: usize = 0;
    while k < results.len()
        invariant
            k <= results@.len(),
            paths_distinct(results@),
            paths_distinct(baseline@),
            base == entries_map(baseline@),
            forall|i: int| 0 <= i < k ==> #[trigger] results@[i].score > 0,
            relative@.len() == k,
            forall|i: int| 0 <= i < k ==> #[trigger] relative@[i].path@ == results@[i].path@,
            forall|i: int|
                0 <= i < k ==> #[trigger] relative@[i].score == relative_score_spec(
                    prior_best(base, results@[i]),
                    results@[i].score,
                ),
            entries_map(updated@) == merged_baseline(base, results@.take(k as int)),
            paths_distinct(updated@),
            entry_paths(updated@) == entry_paths(baseline@) + entry_paths(
                fresh_cases(base, results@.take(k as int)),
            ),
        decreases results@.len() - k,
    {
        let ki = k;
        let current = results[ki].score;
        if current == 0 {
            return Err(BaselineError::ZeroScore);
        }
        proof {
            // none of the results processed so far holds this path
            assert(forall|i: int|
                0 <= i < k ==> #[trigger] results@.take(k as int)[i] == results@[i]);
            assert(forall|i: int|
                0 <= i < k ==> #[trigger] results@.take(k as int)[i].path@
                    != results@[ki as int].path@);
        }
        let found = find_path(&updated, &results[ki].path);
        let ghost p = results@[ki as int].path@;
        proof {
            assert(results@.take(k + 1).drop_last() =~= results@.take(k as int));
            assert(results@.take(k + 1).last() == results@[ki as int]);
        }
        let best: u64;
        match found {
            Some(j) => {
                proof {
                    lemma_entries_map_at(updated@, j as int);
                    lemma_merged_untouched(base, results@.take(k as int), p);
                    assert(entries_map(updated@).dom().contains(p));
                    assert(base.dom().contains(p));
                    assert(updated@[j as int].score == base[p]);
                }
                best = updated[j].score;
                let new_best = if best < current {
                    best
                } else {
                    current
                };
                let ghost before = updated@;
                let mut e = updated.remove(j);
                e.score = new_best;
                updated.insert(j, e);
                proof {
                    assert(updated@ =~= before.update(j as int, e));
                    lemma_entries_map_update(before, j as int, e);
                    assert(entries_map(updated@) == merged_baseline(
                        base,
                        results@.take(k + 1),
                    ));
                    assert(forall|i: int|
                        0 <= i < updated@.len() ==> #[trigger] updated@[i].path@
                            == before[i].path@);
                    assert(paths_distinct(updated@));
                    // the entry order is untouched, and this case adds
                    // nothing fresh
                    assert(entry_paths(updated@) =~= entry_paths(before));
                    assert(fresh_cases(base, results@.take(k + 1)) == fresh_cases(
                        base,
                        results@.take(k as int),
                    ));
                }
            },
            None => {
                proof {
                    lemma_entries_map_domain(updated@, p);
                    lemma_merged_untouched(base, results@.take(k as int), p);
                    assert(!base.dom().contains(p));
                }
                best = current;
                let ghost before = updated@;
                let path_copy = vstd::slice::slice_to_vec(results[ki].path.as_slice());
                updated.push(CaseScore { path: path_copy, score: current });
                proof {
                    assert(updated@.drop_last() =~= before);
                    assert(updated@.last().path@ == p && updated@.last().score == current);
                    assert(entries_map(updated@) == merged_baseline(
                        base,
                        results@.take(k + 1),
                    ));
                    assert(forall|i: int|
                        0 <= i < before.len() ==> #[trigger] updated@[i] == before[i]);
                    assert(paths_distinct(updated@));
                    // this case is fresh: it is appended, in run order
                    assert(fresh_cases(base, results@.take(k + 1)) == fresh_cases(
                        base,
                        results@.take(k as int),
                    ).push(results@[ki as int]));
                    assert(entry_paths(updated@) =~= entry_paths(before).push(p));
                    assert(entry_paths(updated@) =~= entry_paths(baseline@) + entry_paths(
                        fresh_cases(base, results@.take(k + 1)),
                    ));
                }
            },
        }
        let rel = relative_score(best, current);
        let rel_path = vstd::slice::slice_to_vec(results[ki].path.as_slice());
        relative.push(CaseScore { path: rel_path, score: rel });
        k = k + 1;
    }
    proof {
        assert(results@.take(results@.len() as int) =~= results@);
    }
    Ok(RelativeOutcome { relative, updated })
}

} // verus!
