//! Assembling one repository's status from what the scanner observed.
//!
//! The scanner hands over the raw observations: whether the repository
//! has a resolvable head, the itemized working-tree changes in whatever
//! order they were enumerated, and one observation per local branch.
//! `build_status` turns them into a `RepoStatus`: the changes sorted by
//! (path, change kind) so the report is deterministic, and the branches
//! classified into the untracked and the unpushed list.

use vstd::prelude::*;
use vstd::relations::sorted_by;

use crate::branch::{classify_branches, names_of_class, BranchClass, BranchObservation};
use crate::status::{item_le, item_leq, item_le_ix, lemma_item_le_total_ordering, DirtyItem,
    ItemView, RepoStatus};

verus! {

/// Inserts `x` into a sorted item list, keeping it sorted and adding
/// exactly `x` to its contents.
fn insert_item_sorted(v: &mut Vec<DirtyItem>, x: DirtyItem)
    requires
        sorted_by(old(v).deep_view(), item_leq()),
    ensures
        sorted_by(final(v).deep_view(), item_leq()),
        final(v).deep_view().to_multiset() == old(v).deep_view().to_multiset().insert(
            x.deep_view(),
        ),
{
    broadcast use vstd::seq_lib::group_to_multiset_ensures;

    let ghost dv = v.deep_view();
    let ghost xv = x.deep_view();
    let mut i: usize = 0;
    while i < v.len()
        invariant_except_break
            i <= v.len(),
            v.deep_view() == dv,
            x.deep_view() == xv,
            forall|k: int| 0 <= k < i ==> item_le(#[trigger] dv[k], xv),
        ensures
            i <= v.len(),
            v.deep_view() == dv,
            x.deep_view() == xv,
            forall|k: int| 0 <= k < i ==> item_le(#[trigger] dv[k], xv),
            i < v.len() ==> !item_le(dv[i as int], xv),
        decreases v.len() - i,
    {
        proof {
            assert(dv[i as int] == v@[i as int].deep_view());
        }
        let keep_going = item_le_ix(&v[i], &x);
        if !keep_going {
            break ;
        }
        i = i + 1;
    }
    proof {
        lemma_item_le_total_ordering();
        let r = item_leq();
        assert forall|k: int| i <= k < dv.len() implies item_le(xv, #[trigger] dv[k]) by {
            assert(!item_le(dv[i as int], xv));
            assert(!r(dv[i as int], xv));
            assert(r(xv, dv[i as int]) || r(dv[i as int], xv));
            if k > i {
                assert(r(dv[i as int], dv[k]));
                assert(r(xv, dv[k]));
            }
            assert(item_le(xv, dv[k]));
        }
    }
    let ghost pos = i as int;
    v.insert(i, x);
    proof {
        dv.insert_ensures(pos, xv);
        assert(v.deep_view() =~~= dv.insert(pos, xv)) by {
            assert forall|k: int| 0 <= k < v@.len() implies v.deep_view()[k] == dv.insert(
                pos,
                xv,
            )[k] by {
                if k < pos {
                    assert(v@[k].deep_view() == dv[k]);
                } else if k == pos {
                    assert(v@[k].deep_view() == xv);
                } else {
                    assert(v@[k].deep_view() == dv[k - 1]);
                    assert(dv.insert(pos, xv)[k - 1 + 1] == dv[k - 1]);
                }
            }
        }
        let nv = v.deep_view();
        assert forall|a: int, b: int| 0 <= a < b < nv.len() implies #[trigger] item_leq()(
            nv[a],
            nv[b],
        ) by {
            if a < pos && b < pos {
                assert(item_leq()(dv[a], dv[b]));
            } else if a < pos && b == pos {
                assert(item_le(dv[a], xv));
            } else if a < pos && b > pos {
                assert(item_leq()(dv[a], dv[b - 1]));
                if a == b - 1 {
                    assert(item_le(dv[a], xv) && item_le(xv, dv[a]));
                }
            } else if a == pos {
                assert(item_le(xv, dv[b - 1]));
            } else {
                assert(item_leq()(dv[a - 1], dv[b - 1]));
            }
        }
        assert(nv.to_multiset() =~= dv.to_multiset().insert(xv));
    }
}

/// Sorts the itemized changes by (path, change kind).
pub fn sort_items(items: Vec<DirtyItem>) -> (r: Vec<DirtyItem>)
    ensures
        sorted_by(r.deep_view(), item_leq()),
        r.deep_view().to_multiset() == items.deep_view().to_multiset(),
{
    broadcast use vstd::seq_lib::group_to_multiset_ensures;

    let ghost all = items.deep_view();
    let mut rest = items;
    let mut out: Vec<DirtyItem> = Vec::new();
    proof {
        assert(rest.deep_view() =~= all.skip(0));
        assert(out.deep_view() =~= Seq::<ItemView>::empty());
        assert(out.deep_view().to_multiset() =~= all.take(0).to_multiset());
        assert(sorted_by(out.deep_view(), item_leq()));
    }
    while rest.len() > 0
        invariant
            rest.len() <= all.len(),
            rest.deep_view() == all.skip(all.len() - rest.len()),
            sorted_by(out.deep_view(), item_leq()),
            out.deep_view().to_multiset() == all.take(all.len() - rest.len()).to_multiset(),
        decreases rest.len(),
    {
        let ghost done = all.len() - rest.len();
        let ghost next = all.take(done + 1);
        proof {
            assert(next.drop_last() =~= all.take(done));
            assert(next.last() == all[done]);
            assert(rest.deep_view()[0] == all[done]);
        }
        let ghost prev = rest.deep_view();
        let ghost prevraw = rest@;
        let x = rest.remove(0);
        proof {
            assert(rest@ == prevraw.remove(0));
            assert forall|k: int| 0 <= k < rest@.len() implies rest.deep_view()[k] == prev[k
                + 1] by {
                assert(rest@[k] == prevraw[k + 1]);
            }
            assert forall|k: int| 0 <= k < rest@.len() implies prev[k + 1] == #[trigger] all.skip(
                done + 1,
            )[k] by {
                assert(prev[k + 1] == all[done + 1 + k]);
            }
            assert(rest.deep_view() =~= all.skip(done + 1));
            assert(x.deep_view() == all[done]);
            assert(next =~= all.take(done).push(all[done]));
        }
        insert_item_sorted(&mut out, x);
        proof {
            vstd::seq_lib::to_multiset_build::<ItemView>(all.take(done), all[done]);
            assert(out.deep_view().to_multiset() =~= next.to_multiset());
        }
    }
    proof {
        assert(all.take(all.len() as int) =~= all);
    }
    out
}

/// Builds the status of one scanned repository from the scanner's raw
/// observations. The itemized changes come out sorted by (path, change
/// kind); the branch lists keep discovery order.
pub fn build_status(no_commits: bool, items: Vec<DirtyItem>, branches: Vec<BranchObservation>) -> (
    r: RepoStatus)
    ensures
        r.no_commits == no_commits,
        sorted_by(r.deep_view().dirty, item_leq()),
        r.deep_view().dirty.to_multiset() == items.deep_view().to_multiset(),
        r.deep_view().untracked == names_of_class(branches.deep_view(), BranchClass::Untracked),
        r.deep_view().unpushed == names_of_class(branches.deep_view(), BranchClass::Unpushed),
{
    let dirty = sort_items(items);
    let (untracked_branches, unpushed_branches) = classify_branches(branches);
    RepoStatus { no_commits, dirty, untracked_branches, unpushed_branches }
}

} // verus!
