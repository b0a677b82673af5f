//! Aggregating scan outcomes into a deterministic report.
//!
//! Scans run concurrently and finish in no particular order. The
//! aggregator partitions the collected outcomes into the clean set
//! (paths only) and the non-clean list (path and full status), each
//! sorted by path, so the report does not depend on enumeration or
//! completion order.

use vstd::prelude::*;
use vstd::relations::sorted_by;

use crate::order::{bytes_le, bytes_leq, lemma_lex_le_antisym, lemma_lex_le_refl,
    lemma_lex_le_total, lemma_lex_le_total_ordering, lemma_lex_le_trans, lex_le};
use crate::status::{RepoStatus, StatusView};

verus! {

/// The outcome of one successful scan: the scanned directory and what
/// the scan found there.
#[derive(PartialEq, Debug, Clone)]
pub struct ScanOutcome {
    pub path: Vec<u8>,
    pub status: RepoStatus,
}

/// Mathematical value of a `ScanOutcome`.
pub ghost struct OutcomeView {
    pub path: Seq<u8>,
    pub status: StatusView,
}

impl DeepView for ScanOutcome {
    type V = OutcomeView;

    open spec fn deep_view(&self) -> OutcomeView {
        OutcomeView { path: self.path@, status: self.status.deep_view() }
    }
}

/// The aggregated report: clean repositories as bare paths, non-clean
/// repositories with their full status, both sorted by path.
#[derive(PartialEq, Debug, Clone)]
pub struct Report {
    pub clean: Vec<Vec<u8>>,
    pub dirty: Vec<ScanOutcome>,
}

/// Mathematical value of a `Report`.
pub ghost struct ReportView {
    pub clean: Seq<Seq<u8>>,
    pub dirty: Seq<OutcomeView>,
}

impl DeepView for Report {
    type V = ReportView;

    open spec fn deep_view(&self) -> ReportView {
        ReportView { clean: self.clean.deep_view(), dirty: self.dirty.deep_view() }
    }
}

/// Ordering of outcomes by path alone.
pub open spec fn out_leq() -> spec_fn(OutcomeView, OutcomeView) -> bool {
    |a: OutcomeView, b: OutcomeView| lex_le(a.path, b.path)
}

/// Paths of the clean outcomes, in input order.
pub open spec fn clean_paths_of(s: Seq<OutcomeView>) -> Seq<Seq<u8>>
    decreases s.len(),
{
    if s.len() == 0 {
        Seq::empty()
    } else if s.last().status.is_clean() {
        clean_paths_of(s.drop_last()).push(s.last().path)
    } else {
        clean_paths_of(s.drop_last())
    }
}

/// The non-clean outcomes, in input order.
pub open spec fn unclean_of(s: Seq<OutcomeView>) -> Seq<OutcomeView>
    decreases s.len(),
{
    if s.len() == 0 {
        Seq::empty()
    } else if !s.last().status.is_clean() {
        unclean_of(s.drop_last()).push(s.last())
    } else {
        unclean_of(s.drop_last())
    }
}

/// No two outcomes name the same path: each scanned directory is
/// scanned exactly once, so its path is an identity key.
pub open spec fn distinct_paths(s: Seq<OutcomeView>) -> bool {
    forall|i: int, j: int| 0 <= i < j < s.len() ==> s[i].path != s[j].path
}

/// Everything `aggregate` guarantees about its result, as one
/// predicate: both halves of the report are sorted by path and hold
/// exactly the clean paths and the non-clean outcomes of the input.
pub open spec fn aggregate_post(s: Seq<OutcomeView>, r: ReportView) -> bool {
    &&& sorted_by(r.clean, bytes_leq())
    &&& r.clean.to_multiset() == clean_paths_of(s).to_multiset()
    &&& sorted_by(r.dirty, out_leq())
    &&& r.dirty.to_multiset() == unclean_of(s).to_multiset()
}

/// Inserts `x` into a path-sorted list of paths, keeping it sorted and
/// adding exactly `x` to its contents.
fn insert_path_sorted(v: &mut Vec<Vec<u8>>, x: Vec<u8>)
    requires
        sorted_by(old(v).deep_view(), bytes_leq()),
    ensures
        sorted_by(final(v).deep_view(), bytes_leq()),
        final(v).deep_view().to_multiset() == old(v).deep_view().to_multiset().insert(x@),
{
    broadcast use vstd::seq_lib::group_to_multiset_ensures;

    let ghost dv = v.deep_view();
    let ghost xv = x@;
    let mut i: usize = 0;
    while i < v.len()
        invariant_except_break
            i <= v.len(),
            v.deep_view() == dv,
            x@ == xv,
            forall|k: int| 0 <= k < i ==> lex_le(#[trigger] dv[k], xv),
        ensures
            i <= v.len(),
            v.deep_view() == dv,
            x@ == xv,
            forall|k: int| 0 <= k < i ==> lex_le(#[trigger] dv[k], xv),
            i < v.len() ==> !lex_le(dv[i as int], xv),
        decreases v.len() - i,
    {
        proof {
            assert(dv[i as int] == v@[i as int]@);
        }
        let keep_going = bytes_le(&v[i], &x);
        if !keep_going {
            break ;
        }
        i = i + 1;
    }
    proof {
        lemma_lex_le_total_ordering();
        let r = bytes_leq();
        assert forall|k: int| i <= k < dv.len() implies lex_le(xv, #[trigger] dv[k]) by {
            assert(!lex_le(dv[i as int], xv));
            lemma_lex_le_total(dv[i as int], xv);
            if k > i {
                assert(r(dv[i as int], dv[k]));
                lemma_lex_le_trans(xv, dv[i as int], dv[k]);
            }
            assert(lex_le(xv, dv[k]));
        }
    }
    let ghost pos = i as int;
    v.insert(i, x);
    proof {
        dv.insert_ensures(pos, xv);
        assert(v.deep_view() =~~= dv.insert(pos, xv)) by {
            assert forall|k: int| 0 <= k < v@.len() implies v.deep_view()[k] == dv.insert(
                pos,
                xv,
            )[k] by {
                if k < pos {
                    assert(v@[k]@ == dv[k]);
                } else if k == pos {
                    assert(v@[k]@ == xv);
                } else {
                    assert(v@[k]@ == dv[k - 1]);
                    assert(dv.insert(pos, xv)[k - 1 + 1] == dv[k - 1]);
                }
            }
        }
        let nv = v.deep_view();
        assert forall|a: int, b: int| 0 <= a < b < nv.len() implies #[trigger] bytes_leq()(
            nv[a],
            nv[b],
        ) by {
            let r = bytes_leq();
            if a < pos && b < pos {
                assert(r(dv[a], dv[b]));
            } else if a < pos && b == pos {
                assert(lex_le(dv[a], xv));
            } else if a < pos && b > pos {
                assert(r(dv[a], dv[b - 1]));
                if a == b - 1 {
                    lemma_lex_le_antisym(dv[a], xv);
                    lemma_lex_le_refl(dv[a]);
                }
            } else if a == pos {
                assert(lex_le(xv, dv[b - 1]));
            } else {
                assert(r(dv[a - 1], dv[b - 1]));
            }
        }
        assert(nv.to_multiset() =~= dv.to_multiset().insert(xv));
    }
}

/// Inserts `x` into a path-sorted list of outcomes, keeping it sorted
/// and adding exactly `x` to its contents.
fn insert_outcome_sorted(v: &mut Vec<ScanOutcome>, x: ScanOutcome)
    requires
        sorted_by(old(v).deep_view(), out_leq()),
    ensures
        sorted_by(final(v).deep_view(), out_leq()),
        final(v).deep_view().to_multiset() == old(v).deep_view().to_multiset().insert(
            x.deep_view(),
        ),
{
    broadcast use vstd::seq_lib::group_to_multiset_ensures;

    let ghost dv = v.deep_view();
    let ghost xv = x.deep_view();
    let mut i: usize = 0;
    while i < v.len()
        invariant_except_break
            i <= v.len(),
            v.deep_view() == dv,
            x.deep_view() == xv,
            forall|k: int| 0 <= k < i ==> lex_le(#[trigger] dv[k].path, xv.path),
        ensures
            i <= v.len(),
            v.deep_view() == dv,
            x.deep_view() == xv,
            forall|k: int| 0 <= k < i ==> lex_le(#[trigger] dv[k].path, xv.path),
            i < v.len() ==> !lex_le(dv[i as int].path, xv.path),
        decreases v.len() - i,
    {
        proof {
            assert(dv[i as int] == v@[i as int].deep_view());
        }
        let keep_going = bytes_le(&v[i].path, &x.path);
        if !keep_going {
            break ;
        }
        i = i + 1;
    }
    proof {
        assert forall|k: int| i <= k < dv.len() implies lex_le(xv.path, #[trigger] dv[k].path) by {
            assert(!lex_le(dv[i as int].path, xv.path));
            lemma_lex_le_total(dv[i as int].path, xv.path);
            if k > i {
                assert(out_leq()(dv[i as int], dv[k]));
                lemma_lex_le_trans(xv.path, dv[i as int].path, dv[k].path);
            }
            assert(lex_le(xv.path, dv[k].path));
        }
    }
    let ghost pos = i as int;
    v.insert(i, x);
    proof {
        dv.insert_ensures(pos, xv);
        assert(v.deep_view() =~~= dv.insert(pos, xv)) by {
            assert forall|k: int| 0 <= k < v@.len() implies v.deep_view()[k] == dv.insert(
                pos,
                xv,
            )[k] by {
                if k < pos {
                    assert(v@[k].deep_view() == dv[k]);
                } else if k == pos {
                    assert(v@[k].deep_view() == xv);
                } else {
                    assert(v@[k].deep_view() == dv[k - 1]);
                    assert(dv.insert(pos, xv)[k - 1 + 1] == dv[k - 1]);
                }
            }
        }
        let nv = v.deep_view();
        assert forall|a: int, b: int| 0 <= a < b < nv.len() implies #[trigger] out_leq()(
            nv[a],
            nv[b],
        ) by {
            let r = out_leq();
            if a < pos && b < pos {
                assert(r(dv[a], dv[b]));
            } else if a < pos && b == pos {
                assert(lex_le(dv[a].path, xv.path));
            } else if a < pos && b > pos {
                assert(r(dv[a], dv[b - 1]));
                if a == b - 1 {
                    lemma_lex_le_refl(dv[a].path);
                }
            } else if a == pos {
                assert(lex_le(xv.path, dv[b - 1].path));
            } else {
                assert(r(dv[a - 1], dv[b - 1]));
            }
        }
        assert(nv.to_multiset() =~= dv.to_multiset().insert(xv));
    }
}

/// Partitions the collected outcomes into the clean paths and the
/// non-clean outcomes, each sorted by path. The result depends only on
/// what was collected, never on the order the scans finished in.
pub fn aggregate(outcomes: Vec<ScanOutcome>) -> (r: Report)
    ensures
        aggregate_post(outcomes.deep_view(), r.deep_view()),
{
    broadcast use vstd::seq_lib::group_to_multiset_ensures;

    let ghost all = outcomes.deep_view();
    let mut rest = outcomes;
    let mut clean: Vec<Vec<u8>> = Vec::new();
    let mut dirty: Vec<ScanOutcome> = Vec::new();
    proof {
        assert(rest.deep_view() =~= all.skip(0));
        assert(clean.deep_view() =~= Seq::<Seq<u8>>::empty());
        assert(dirty.deep_view() =~= Seq::<OutcomeView>::empty());
        assert(clean.deep_view().to_multiset() =~= clean_paths_of(all.take(0)).to_multiset());
        assert(dirty.deep_view().to_multiset() =~= unclean_of(all.take(0)).to_multiset());
    }
    while rest.len() > 0
        invariant
            rest.len() <= all.len(),
            rest.deep_view() == all.skip(all.len() - rest.len()),
            sorted_by(clean.deep_view(), bytes_leq()),
            clean.deep_view().to_multiset() == clean_paths_of(
                all.take(all.len() - rest.len()),
            ).to_multiset(),
            sorted_by(dirty.deep_view(), out_leq()),
            dirty.deep_view().to_multiset() == unclean_of(
                all.take(all.len() - rest.len()),
            ).to_multiset(),
        decreases rest.len(),
    {
        let ghost done = all.len() - rest.len();
        let ghost next = all.take(done + 1);
        proof {
            assert(next.drop_last() =~= all.take(done));
            assert(next.last() == all[done]);
            assert(rest.deep_view()[0] == all[done]);
        }
        let ghost prev = rest.deep_view();
        let ghost prevraw = rest@;
        let x = rest.remove(0);
        proof {
            assert(rest@ == prevraw.remove(0));
            assert forall|k: int| 0 <= k < rest@.len() implies rest.deep_view()[k] == prev[k
                + 1] by {
                assert(rest@[k] == prevraw[k + 1]);
            }
            assert forall|k: int| 0 <= k < rest@.len() implies prev[k + 1] == #[trigger] all.skip(
                done + 1,
            )[k] by {
                assert(prev[k + 1] == all[done + 1 + k]);
            }
            assert(rest.deep_view() =~= all.skip(done + 1));
            assert(x.deep_view() == all[done]);
        }
        if x.status.is_clean() {
            insert_path_sorted(&mut clean, x.path);
            proof {
                vstd::seq_lib::to_multiset_build::<Seq<u8>>(
                    clean_paths_of(all.take(done)),
                    all[done].path,
                );
                assert(clean_paths_of(next) =~= clean_paths_of(all.take(done)).push(
                    all[done].path,
                ));
                assert(clean.deep_view().to_multiset() =~= clean_paths_of(next).to_multiset());
            }
        } else {
            insert_outcome_sorted(&mut dirty, x);
            proof {
                vstd::seq_lib::to_multiset_build::<OutcomeView>(
                    unclean_of(all.take(done)),
                    all[done],
                );
                assert(unclean_of(next) =~= unclean_of(all.take(done)).push(all[done]));
                assert(dirty.deep_view().to_multiset() =~= unclean_of(next).to_multiset());
            }
        }
    }
    proof {
        assert(all.take(all.len() as int) =~= all);
    }
    Report { clean, dirty }
}

} // verus!
