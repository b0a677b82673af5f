//! Branch classification.
//!
//! For each local branch the scanner observes, per remote direction,
//! whether an upstream tracking reference is configured and, if so,
//! whether it resolves to the same commit as the local tip. From those
//! observations alone the branch is classified: untracked when no
//! upstream is configured in either direction; pushed when the
//! push-direction upstream resolves to the local tip, or when no
//! push-direction upstream is configured and the fetch-direction one
//! resolves to the local tip; unpushed otherwise, that is, whenever the
//! deciding upstream is configured but unresolved or pointing at a
//! different commit.

use vstd::prelude::*;

verus! {

/// What one remote direction shows for a branch.
#[derive(Clone, Copy, PartialEq, Eq, Structural, Debug)]
pub enum UpstreamState {
    /// No upstream tracking reference is configured in this direction.
    NotConfigured,
    /// An upstream is configured but the reference does not exist.
    NotFound,
    /// The upstream resolves to the same commit as the local tip.
    Matches,
    /// The upstream resolves to a different commit than the local tip.
    Differs,
}

/// The classification of one branch.
#[derive(Clone, Copy, PartialEq, Eq, Structural, Debug)]
pub enum BranchClass {
    /// The deciding upstream resolves to the local tip: the
    /// push-direction one, or the fetch-direction one when no
    /// push-direction upstream is configured.
    Pushed,
    /// No upstream is configured in either direction.
    Untracked,
    /// An upstream is configured, but the deciding one is unresolved or
    /// resolves to a different commit.
    Unpushed,
}

/// Classification of a branch from its two per-direction observations.
/// The push direction decides; the fetch direction stands in only when
/// no push-direction upstream is configured at all.
pub open spec fn spec_classify(fetch: UpstreamState, push: UpstreamState) -> BranchClass {
    if push == UpstreamState::Matches || (push == UpstreamState::NotConfigured && fetch
        == UpstreamState::Matches) {
        BranchClass::Pushed
    } else if fetch == UpstreamState::NotConfigured && push == UpstreamState::NotConfigured {
        BranchClass::Untracked
    } else {
        BranchClass::Unpushed
    }
}

/// Classifies one branch from what the two directions showed.
pub fn classify(fetch: UpstreamState, push: UpstreamState) -> (r: BranchClass)
    ensures
        r == spec_classify(fetch, push),
{
    match (fetch, push) {
        (_, UpstreamState::Matches) => BranchClass::Pushed,
        (UpstreamState::Matches, UpstreamState::NotConfigured) => BranchClass::Pushed,
        (UpstreamState::NotConfigured, UpstreamState::NotConfigured) => BranchClass::Untracked,
        _ => BranchClass::Unpushed,
    }
}

/// A branch appears in at most one class: the three outcomes are
/// mutually exclusive, and a branch whose push-direction upstream
/// resolves to the same commit as its local tip is pushed, so it lands
/// in neither the untracked nor the unpushed list. A push-direction
/// upstream that differs or cannot be found makes the branch unpushed
/// no matter what the fetch direction shows.
pub proof fn lemma_classification_exclusive(fetch: UpstreamState, push: UpstreamState)
    ensures
        spec_classify(fetch, push) == BranchClass::Untracked ==> spec_classify(fetch, push)
            != BranchClass::Unpushed && spec_classify(fetch, push) != BranchClass::Pushed,
        spec_classify(fetch, push) == BranchClass::Unpushed ==> spec_classify(fetch, push)
            != BranchClass::Untracked && spec_classify(fetch, push) != BranchClass::Pushed,
        (push == UpstreamState::Matches || (push == UpstreamState::NotConfigured && fetch
            == UpstreamState::Matches)) <==> spec_classify(fetch, push) == BranchClass::Pushed,
        push == UpstreamState::Matches ==> spec_classify(fetch, push) == BranchClass::Pushed,
        (push == UpstreamState::Differs || push == UpstreamState::NotFound) ==> spec_classify(
            fetch, push) == BranchClass::Unpushed,
        (fetch == UpstreamState::NotConfigured && push == UpstreamState::NotConfigured) <==>
            spec_classify(fetch, push) == BranchClass::Untracked,
{
}

/// One local branch as the scanner observed it.
#[derive(PartialEq, Debug, Clone)]
pub struct BranchObservation {
    pub name: Vec<u8>,
    pub fetch: UpstreamState,
    pub push: UpstreamState,
}

/// Mathematical value of a `BranchObservation`.
pub ghost struct ObsView {
    pub name: Seq<u8>,
    pub fetch: UpstreamState,
    pub push: UpstreamState,
}

impl DeepView for BranchObservation {
    type V = ObsView;

    open spec fn deep_view(&self) -> ObsView {
        ObsView { name: self.name@, fetch: self.fetch, push: self.push }
    }
}

impl ObsView {
    pub open spec fn class(self) -> BranchClass {
        spec_classify(self.fetch, self.push)
    }
}

/// Names of the branches classified `c`, in discovery order.
pub open spec fn names_of_class(obs: Seq<ObsView>, c: BranchClass) -> Seq<Seq<u8>>
    decreases obs.len(),
{
    if obs.len() == 0 {
        Seq::empty()
    } else if obs.last().class() == c {
        names_of_class(obs.drop_last(), c).push(obs.last().name)
    } else {
        names_of_class(obs.drop_last(), c)
    }
}

/// Walks the observed branches once and returns the untracked and the
/// unpushed branch names, each in discovery order.
pub fn classify_branches(obs: Vec<BranchObservation>) -> (r: (Vec<Vec<u8>>, Vec<Vec<u8>>))
    ensures
        r.0.deep_view() == names_of_class(obs.deep_view(), BranchClass::Untracked),
        r.1.deep_view() == names_of_class(obs.deep_view(), BranchClass::Unpushed),
{
    let ghost all = obs.deep_view();
    let mut rest = obs;
    let mut untracked: Vec<Vec<u8>> = Vec::new();
    let mut unpushed: Vec<Vec<u8>> = Vec::new();
    proof {
        assert(rest.deep_view() =~= all.skip(0));
        assert(untracked.deep_view() =~= names_of_class(all.take(0), BranchClass::Untracked));
        assert(unpushed.deep_view() =~= names_of_class(all.take(0), BranchClass::Unpushed));
    }
    while rest.len() > 0
        invariant
            rest.len() <= all.len(),
            rest.deep_view() == all.skip(all.len() - rest.len()),
            untracked.deep_view() == names_of_class(
                all.take(all.len() - rest.len()),
                BranchClass::Untracked,
            ),
            unpushed.deep_view() == names_of_class(
                all.take(all.len() - rest.len()),
                BranchClass::Unpushed,
            ),
        decreases rest.len(),
    {
        let ghost done = all.len() - rest.len();
        let ghost next = all.take(done + 1);
        proof {
            assert(next.drop_last() =~= all.take(done));
            assert(next.last() == all[done]);
            assert(rest.deep_view()[0] == all[done]);
        }
        let ghost prev = rest.deep_view();
        let ghost prevraw = rest@;
        let b = rest.remove(0);
        proof {
            assert(prev == all.skip(done));
            assert(rest@ == prevraw.remove(0));
            assert(rest@.len() == prev.len() - 1);
            assert forall|k: int| 0 <= k < rest@.len() implies rest.deep_view()[k] == prev[k
                + 1] by {
                assert(rest@[k] == prevraw[k + 1]);
                assert(rest.deep_view()[k] == rest@[k].deep_view());
                assert(prev[k + 1] == prevraw[k + 1].deep_view());
            }
            assert forall|k: int| 0 <= k < rest@.len() implies prev[k + 1] == #[trigger] all.skip(
                done + 1,
            )[k] by {
                assert(prev[k + 1] == all[done + 1 + k]);
            }
            assert(rest.deep_view() =~= all.skip(done + 1));
        }
        let ghost bv = b.deep_view();
        let class = classify(b.fetch, b.push);
        let ghost old_untracked = untracked.deep_view();
        let ghost old_unpushed = unpushed.deep_view();
        if class == BranchClass::Untracked {
            untracked.push(b.name);
            proof {
                assert(untracked.deep_view() =~~= old_untracked.push(bv.name));
            }
        } else if class == BranchClass::Unpushed {
            unpushed.push(b.name);
            proof {
                assert(unpushed.deep_view() =~~= old_unpushed.push(bv.name));
            }
        }
    }
    proof {
        assert(all.take(all.len() as int) =~= all);
    }
    (untracked, unpushed)
}

} // verus!
