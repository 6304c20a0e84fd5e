//! Evaluation of a trigram requirement against an index.
//!
//! The requirement tree is walked recursively: an exact leaf intersects the
//! posting lists of all its trigrams (starting from the shortest), an AND
//! node intersects its children's candidate sets, an OR node unions them.  An
//! unconstrained subtree yields no candidate set at all — `None` — telling
//! the caller that filtering is impossible there and a full scan is owed.

use crate::index::spec_lookup;
use crate::index::Index;
use crate::index::IndexError;
use crate::posting::intersect;
use crate::posting::strictly_sorted;
use crate::posting::union;
use crate::query::wf_require;
use crate::query::Require;
use vstd::prelude::*;

verus! {

/// The posting list the index stores for `t`; the empty list when `t` is
/// absent.  Meaningful only where `spec_lookup` succeeds.
pub open spec fn stored_postings(s: Seq<u8>, t: u32) -> Seq<u32> {
    match spec_lookup(s, t) {
        Some(ids) => ids,
        None => Seq::<u32>::empty(),
    }
}

/// Every trigram the requirement lists has a readable posting list in the
/// index: exactly then evaluation returns a result instead of an error.
pub open spec fn spec_eval_ok(r: Require, s: Seq<u8>) -> bool
    decreases r,
{
    match r {
        Require::Unconstrained => true,
        Require::Exact(ts) => forall|k: int|
            0 <= k < ts@.len() ==> (#[trigger] spec_lookup(s, ts@[k])) is Some,
        Require::And(a, b) => spec_eval_ok(*a, s) && spec_eval_ok(*b, s),
        Require::Or(a, b) => spec_eval_ok(*a, s) && spec_eval_ok(*b, s),
    }
}

/// The candidate document set of a requirement against an index: `None` for
/// an unconstrained requirement, where every document stays a candidate.
pub open spec fn spec_candidates(r: Require, s: Seq<u8>) -> Option<Set<u32>>
    decreases r,
{
    match r {
        Require::Unconstrained => None,
        Require::Exact(ts) => Some(
            Set::new(
                |d: u32|
                    forall|k: int|
                        0 <= k < ts@.len() ==> (#[trigger] stored_postings(s, ts@[k])).contains(d),
            ),
        ),
        Require::And(a, b) => match (spec_candidates(*a, s), spec_candidates(*b, s)) {
            (Option::None, cb) => cb,
            (Option::Some(ca), Option::None) => Some(ca),
            (Option::Some(ca), Option::Some(cb)) => Some(ca.intersect(cb)),
        },
        Require::Or(a, b) => match (spec_candidates(*a, s), spec_candidates(*b, s)) {
            (Option::Some(ca), Option::Some(cb)) => Some(ca.union(cb)),
            _ => None,
        },
    }
}

/// An exact leaf whose trigrams all have readable posting lists has one for
/// each listed trigram in particular.
proof fn lemma_eval_ok_exact(ts: Vec<u32>, s: Seq<u8>, k: int)
    requires
        spec_eval_ok(Require::Exact(ts), s),
        0 <= k < ts@.len(),
    ensures
        spec_lookup(s, ts@[k]) is Some,
{
}

/// Copies a posting list.
fn copy_ids(v: &Vec<u32>) -> (r: Vec<u32>)
    ensures
        r@ == v@,
{
    let mut r: Vec<u32> = Vec::new();
    let mut i: usize = 0;
    while i < v.len()
        invariant
            i <= v@.len(),
            r@ =~= v@.take(i as int),
        decreases v@.len() - i,
    {
        r.push(v[i]);
        proof {
            assert(r@ =~= v@.take(i + 1));
        }
        i = i + 1;
    }
    proof {
        assert(r@ =~= v@);
    }
    r
}

/// Combines two child results under AND.
///
/// `None` stands for an unconstrained child: the other child's candidate set
/// is returned unchanged, never weakened or dropped.  Two constrained sides
/// intersect.
pub fn and_results(x: Option<Vec<u32>>, y: Option<Vec<u32>>) -> (r: Option<Vec<u32>>)
    requires
        x matches Some(v) ==> strictly_sorted(v@),
        y matches Some(v) ==> strictly_sorted(v@),
    ensures
        r matches Some(v) ==> strictly_sorted(v@),
        x is None ==> r == y,
        x is Some && y is None ==> r == x,
        x matches Some(xv) ==> y matches Some(yv) ==> (r matches Some(v) && forall|d: u32|
            v@.contains(d) <==> (xv@.contains(d) && yv@.contains(d))),
{
    match x {
        None => y,
        Some(xv) => match y {
            None => Some(xv),
            Some(yv) => Some(intersect(&xv, &yv)),
        },
    }
}

/// Combines two child results under OR.
///
/// An unconstrained child makes the whole result unconstrained: the match may
/// lie in documents the constrained side cannot see.  Two constrained sides
/// union.
pub fn or_results(x: Option<Vec<u32>>, y: Option<Vec<u32>>) -> (r: Option<Vec<u32>>)
    requires
        x matches Some(v) ==> strictly_sorted(v@),
        y matches Some(v) ==> strictly_sorted(v@),
    ensures
        r matches Some(v) ==> strictly_sorted(v@),
        r is None <==> (x is None || y is None),
        x matches Some(xv) ==> y matches Some(yv) ==> (r matches Some(v) && forall|d: u32|
            v@.contains(d) <==> (xv@.contains(d) || yv@.contains(d))),
{
    match x {
        None => None,
        Some(xv) => match y {
            None => None,
            Some(yv) => Some(union(&xv, &yv)),
        },
    }
}

/// Evaluates a requirement against an index, producing the candidate set.
///
/// `Ok(Some(ids))` is the strictly increasing list of candidate documents;
/// `Ok(None)` says the requirement is unconstrained and every document must
/// be scanned.  The result over-approximates the true matches and is owed a
/// downstream verification.  An error is raised exactly when some trigram the
/// requirement lists has a corrupt block in the index.
pub fn evaluate(r: &Require, idx: &Index) -> (out: Result<Option<Vec<u32>>, IndexError>)
    requires
        wf_require(*r),
        idx.wf(),
    ensures
        out is Ok <==> spec_eval_ok(*r, idx@),
        out matches Ok(opt) ==> match (opt, spec_candidates(*r, idx@)) {
            (Option::None, Option::None) => true,
            (Option::Some(v), Option::Some(c)) => strictly_sorted(v@) && (forall|d: u32|
                v@.contains(d) <==> c.contains(d)),
            _ => false,
        },
        out matches Err(e) ==> exists|t: u32|
            e == IndexError::CorruptBlock(t) && spec_lookup(idx@, t) is None,
    decreases *r,
{
    match r {
        Require::Unconstrained => Ok(None),
        Require::Exact(ts) => {
            proof {
                assert(*r == Require::Exact(*ts));
            }
            assert(ts@.len() > 0);
            let mut lists: Vec<Vec<u32>> = Vec::new();
            let mut k: usize = 0;
            while k < ts.len()
                invariant
                    idx.wf(),
                    *r == Require::Exact(*ts),
                    k <= ts@.len(),
                    lists@.len() == k,
                    forall|m: int|
                        0 <= m < k ==> spec_lookup(idx@, ts@[m]) == Some(
                            (#[trigger] lists@[m])@,
                        ) && strictly_sorted(lists@[m]@),
                decreases ts@.len() - k,
            {
                match idx.lookup(ts[k]) {
                    Ok(ids) => {
                        lists.push(ids);
                    },
                    Err(e) => {
                        proof {
                            assert(e == IndexError::CorruptBlock(ts@[k as int]) && spec_lookup(
                                idx@,
                                ts@[k as int],
                            ) is None);
                            assert(!spec_eval_ok(*r, idx@)) by {
                                if spec_eval_ok(*r, idx@) {
                                    lemma_eval_ok_exact(*ts, idx@, k as int);
                                }
                            }
                        }
                        return Err(e);
                    },
                }
                k = k + 1;
            }
            let mut best: usize = 0;
            let mut m: usize = 1;
            while m < lists.len()
                invariant
                    best < lists@.len(),
                    m <= lists@.len(),
                decreases lists@.len() - m,
            {
                if lists[m].len() < lists[best].len() {
                    best = m;
                }
                m = m + 1;
            }
            let mut acc = copy_ids(&lists[best]);
            let mut j: usize = 0;
            while j < lists.len()
                invariant
                    idx.wf(),
                    lists@.len() == ts@.len(),
                    best < lists@.len(),
                    j <= lists@.len(),
                    strictly_sorted(acc@),
                    forall|m: int|
                        0 <= m < lists@.len() ==> spec_lookup(idx@, ts@[m]) == Some(
                            (#[trigger] lists@[m])@,
                        ) && strictly_sorted(lists@[m]@),
                    forall|d: u32|
                        acc@.contains(d) <==> (lists@[best as int]@.contains(d) && forall|m: int|
                            0 <= m < j ==> (#[trigger] lists@[m])@.contains(d)),
                decreases lists@.len() - j,
            {
                acc = intersect(&acc, &lists[j]);
                j = j + 1;
            }
            proof {
                assert(spec_eval_ok(*r, idx@)) by {
                    assert forall|kk: int| 0 <= kk < ts@.len() implies (#[trigger] spec_lookup(
                        idx@,
                        ts@[kk],
                    )) is Some by {
                        assert(spec_lookup(idx@, ts@[kk]) == Some(lists@[kk]@));
                    }
                }
                let cand = spec_candidates(*r, idx@);
                assert(cand matches Some(c) && forall|d: u32| acc@.contains(d) <==> c.contains(d))
                    by {
                    let c = cand->Some_0;
                    assert forall|d: u32| acc@.contains(d) <==> c.contains(d) by {
                        assert(c.contains(d) <==> (forall|kk: int|
                            0 <= kk < ts@.len() ==> (#[trigger] stored_postings(
                                idx@,
                                ts@[kk],
                            )).contains(d)));
                        assert forall|kk: int|
                            0 <= kk < ts@.len() implies (stored_postings(idx@, ts@[kk]) == lists@[kk]@) by {
                            assert(spec_lookup(idx@, ts@[kk]) == Some(lists@[kk]@));
                        }
                        if acc@.contains(d) {
                            assert forall|kk: int|
                                0 <= kk < ts@.len() implies (#[trigger] stored_postings(
                                idx@,
                                ts@[kk],
                            )).contains(d) by {
                                assert(lists@[kk]@.contains(d));
                            }
                        }
                        if c.contains(d) {
                            assert(lists@[best as int]@.contains(d)) by {
                                assert(stored_postings(idx@, ts@[best as int]).contains(d));
                            }
                            assert forall|mm: int| 0 <= mm < lists@.len() implies (
                            #[trigger] lists@[mm])@.contains(d) by {
                                assert(stored_postings(idx@, ts@[mm]).contains(d));
                            }
                        }
                    }
                }
            }
            Ok(Some(acc))
        },
        Require::And(a, b) => {
            proof {
                assert(*r == Require::And(*a, *b));
            }
            let xa = match evaluate(&**a, idx) {
                Ok(v) => v,
                Err(e) => {
                    return Err(e);
                },
            };
            let xb = match evaluate(&**b, idx) {
                Ok(v) => v,
                Err(e) => {
                    return Err(e);
                },
            };
            Ok(and_results(xa, xb))
        },
        Require::Or(a, b) => {
            proof {
                assert(*r == Require::Or(*a, *b));
            }
            let xa = match evaluate(&**a, idx) {
                Ok(v) => v,
                Err(e) => {
                    return Err(e);
                },
            };
            let xb = match evaluate(&**b, idx) {
                Ok(v) => v,
                Err(e) => {
                    return Err(e);
                },
            };
            Ok(or_results(xa, xb))
        },
    }
}

} // verus!
