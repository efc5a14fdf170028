//! Run-level gating of per-case outcomes.
//!
//! Every case is attempted, whatever happens to its siblings; only once
//! all outcomes are in is the run gated. A run with any per-case
//! failure is a failed run, though the completed cases' outputs remain
//! on disk for diagnosis.

use vstd::prelude::*;

use crate::CaseError;
use crate::cases::CaseScore;

verus! {

/// One attempted case: its path and either its raw score or its error.
pub struct CaseOutcome {
    pub path: Vec<u8>,
    pub outcome: Result<u64, CaseError>,
}

/// The failure a run is reported with: the first failing case, in the
/// order the outcomes stand in, and its error.
#[derive(Debug)]
pub struct CaseFailure {
    pub path: Vec<u8>,
    pub error: CaseError,
}

/// Gates a finished run: the scores of all cases if every case
/// succeeded, the first failure otherwise.
pub fn collect_scores(outcomes: &Vec<CaseOutcome>) -> (r: Result<Vec<CaseScore>, CaseFailure>)
    ensures
        match r {
            Ok(v) => {
                &&& v@.len() == outcomes@.len()
                &&& forall|i: int|
                    0 <= i < outcomes@.len() ==> #[trigger] v@[i].path@ == outcomes@[i].path@
                &&& forall|i: int|
                    0 <= i < outcomes@.len() ==> (#[trigger] outcomes@[i].outcome) == Ok::<
                        u64,
                        CaseError,
                    >(v@[i].score)
            },
            Err(f) => exists|i: int|
                {
                    &&& 0 <= i < outcomes@.len()
                    &&& (#[trigger] outcomes@[i].outcome) == Err::<u64, CaseError>(f.error)
                    &&& f.path@ == outcomes@[i].path@
                    &&& forall|j: int| 0 <= j < i ==> !((#[trigger] outcomes@[j].outcome) is Err)
                },
        },
        (r is Err <==> exists|i: int|
            0 <= i < outcomes@.len() && (#[trigger] outcomes@[i].outcome) is Err),
{
    let mut v: Vec<CaseScore> = Vec::new();
    let mut i: usize = 0;
    while i < outcomes.len()
        invariant
            i <= outcomes@.len(),
            v@.len() == i,
            forall|k: int| 0 <= k < i ==> #[trigger] v@[k].path@ == outcomes@[k].path@,
            forall|k: int|
                0 <= k < i ==> (#[trigger] outcomes@[k].outcome) == Ok::<u64, CaseError>(
                    v@[k].score,
                ),
        decreases outcomes@.len() - i,
    {
        let ghost v0 = v@;
        let path = vstd::slice::slice_to_vec(outcomes[i].path.as_slice());
        match outcomes[i].outcome {
            Ok(score) => {
                v.push(CaseScore { path, score });
                proof {
                    assert forall|k: int| 0 <= k < i + 1 implies #[trigger] v@[k].path@
                        == outcomes@[k].path@ by {
                        if k < i {
                            assert(v@[k] == v0[k]);
                            assert(v0[k].path@ == outcomes@[k].path@);
                        }
                    }
                    assert forall|k: int| 0 <= k < i + 1 implies (#[trigger] outcomes@[k].outcome)
                        == Ok::<u64, CaseError>(v@[k].score) by {
                        if k < i {
                            assert(v@[k] == v0[k]);
                        }
                    }
                }
            },
            Err(error) => {
                proof {
                    assert(outcomes@[i as int].outcome == Err::<u64, CaseError>(error));
                }
                return Err(CaseFailure { path, error });
            },
        }
        i = i + 1;
    }
    Ok(v)
}

} // verus!
