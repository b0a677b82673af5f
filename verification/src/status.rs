//! Per-repository status model.
//!
//! A scanned repository yields a `RepoStatus`: the itemized working-tree
//! changes, the branches with no configured upstream, and the branches
//! whose upstream differs from the local tip. A repository with no
//! commits yet carries `no_commits`, which counts as dirty on its own.

use vstd::prelude::*;

use crate::order::{bytes_le, lemma_lex_le_antisym, lemma_lex_le_refl, lemma_lex_le_total,
    lemma_lex_le_trans, lex_le};

verus! {

/// How a working-tree path differs from the index. `Unknown` stands for
/// an entry whose change could not be summarized; it sorts before every
/// summarized kind.
#[derive(Clone, Copy, PartialEq, Eq, Structural, Debug)]
pub enum ChangeKind {
    Unknown,
    Removed,
    Added,
    Modified,
    TypeChange,
    Renamed,
    Copied,
    IntentToAdd,
    Conflict,
}

/// Rank used to order change kinds within one path.
pub open spec fn kind_rank(k: ChangeKind) -> int {
    match k {
        ChangeKind::Unknown => 0,
        ChangeKind::Removed => 1,
        ChangeKind::Added => 2,
        ChangeKind::Modified => 3,
        ChangeKind::TypeChange => 4,
        ChangeKind::Renamed => 5,
        ChangeKind::Copied => 6,
        ChangeKind::IntentToAdd => 7,
        ChangeKind::Conflict => 8,
    }
}

/// Executable counterpart of `kind_rank`.
pub fn kind_rank_ix(k: ChangeKind) -> (r: u8)
    ensures
        r as int == kind_rank(k),
{
    match k {
        ChangeKind::Unknown => 0,
        ChangeKind::Removed => 1,
        ChangeKind::Added => 2,
        ChangeKind::Modified => 3,
        ChangeKind::TypeChange => 4,
        ChangeKind::Renamed => 5,
        ChangeKind::Copied => 6,
        ChangeKind::IntentToAdd => 7,
        ChangeKind::Conflict => 8,
    }
}

/// One itemized working-tree change: the changed path, relative to the
/// repository root, and the kind of change.
#[derive(PartialEq, Debug, Clone)]
pub struct DirtyItem {
    pub path: Vec<u8>,
    pub kind: ChangeKind,
}

/// Mathematical value of a `DirtyItem`.
pub ghost struct ItemView {
    pub path: Seq<u8>,
    pub kind: ChangeKind,
}

impl DeepView for DirtyItem {
    type V = ItemView;

    open spec fn deep_view(&self) -> ItemView {
        ItemView { path: self.path@, kind: self.kind }
    }
}

/// Ordering of dirty items: by path, ties broken by change kind.
pub open spec fn item_le(a: ItemView, b: ItemView) -> bool {
    if a.path == b.path {
        kind_rank(a.kind) <= kind_rank(b.kind)
    } else {
        lex_le(a.path, b.path) && !lex_le(b.path, a.path)
    }
}

/// `item_le` as a relation value, for sortedness statements.
pub open spec fn item_leq() -> spec_fn(ItemView, ItemView) -> bool {
    |a: ItemView, b: ItemView| item_le(a, b)
}

pub proof fn lemma_kind_rank_injective(a: ChangeKind, b: ChangeKind)
    requires
        kind_rank(a) == kind_rank(b),
    ensures
        a == b,
{
}

/// The item ordering is total: sorting by it pins the sequence down.
pub proof fn lemma_item_le_total_ordering()
    ensures
        vstd::relations::total_ordering(item_leq()),
{
    let r = item_leq();
    assert forall|a: ItemView| #[trigger] r(a, a) by {
        lemma_lex_le_refl(a.path);
    }
    assert forall|a: ItemView, b: ItemView| #[trigger] r(a, b) && #[trigger] r(b, a)
        implies a == b by {
        if a.path == b.path {
            lemma_kind_rank_injective(a.kind, b.kind);
        }
    }
    assert forall|a: ItemView, b: ItemView| #[trigger] r(a, b) || #[trigger] r(b, a) by {
        if a.path != b.path {
            lemma_lex_le_total(a.path, b.path);
            if lex_le(a.path, b.path) && lex_le(b.path, a.path) {
                lemma_lex_le_antisym(a.path, b.path);
            }
        }
    }
    assert forall|a: ItemView, b: ItemView, c: ItemView|
        #[trigger] r(a, b) && #[trigger] r(b, c) implies r(a, c) by {
        if a.path != b.path && b.path != c.path {
            lemma_lex_le_trans(a.path, b.path, c.path);
            if a.path != c.path && lex_le(c.path, a.path) {
                lemma_lex_le_trans(b.path, c.path, a.path);
                lemma_lex_le_trans(c.path, a.path, b.path);
                lemma_lex_le_antisym(a.path, b.path);
            }
            if a.path == c.path {
                lemma_lex_le_antisym(a.path, b.path);
            }
        }
    }
}

/// Decides `item_le` on dirty items.
pub fn item_le_ix(a: &DirtyItem, b: &DirtyItem) -> (r: bool)
    ensures
        r == item_le(a.deep_view(), b.deep_view()),
{
    let ab = bytes_le(&a.path, &b.path);
    let ba = bytes_le(&b.path, &a.path);
    if ab && ba {
        proof {
            lemma_lex_le_antisym(a.path@, b.path@);
        }
        kind_rank_ix(a.kind) <= kind_rank_ix(b.kind)
    } else {
        proof {
            if a.path@ == b.path@ {
                lemma_lex_le_refl(a.path@);
            }
        }
        ab
    }
}

/// Status of one scanned repository.
#[derive(PartialEq, Debug, Clone)]
pub struct RepoStatus {
    /// True when the repository has no resolvable head: no commit exists
    /// yet, which counts as dirty on its own.
    pub no_commits: bool,
    /// Itemized working-tree changes, sorted by (path, kind).
    pub dirty: Vec<DirtyItem>,
    /// Local branches with no upstream configured in either direction,
    /// in discovery order.
    pub untracked_branches: Vec<Vec<u8>>,
    /// Local branches whose configured upstream is unresolved or points
    /// to a different commit, in discovery order.
    pub unpushed_branches: Vec<Vec<u8>>,
}

/// Mathematical value of a `RepoStatus`.
pub ghost struct StatusView {
    pub no_commits: bool,
    pub dirty: Seq<ItemView>,
    pub untracked: Seq<Seq<u8>>,
    pub unpushed: Seq<Seq<u8>>,
}

impl DeepView for RepoStatus {
    type V = StatusView;

    open spec fn deep_view(&self) -> StatusView {
        StatusView {
            no_commits: self.no_commits,
            dirty: self.dirty.deep_view(),
            untracked: self.untracked_branches.deep_view(),
            unpushed: self.unpushed_branches.deep_view(),
        }
    }
}

impl StatusView {
    /// The one-bit projection of dirtiness: changes exist, or no commit
    /// exists yet.
    pub open spec fn is_dirty(self) -> bool {
        self.no_commits || self.dirty.len() > 0
    }

    /// A repository is clean exactly when nothing at all is to report.
    pub open spec fn is_clean(self) -> bool {
        &&& !self.is_dirty()
        &&& self.untracked.len() == 0
        &&& self.unpushed.len() == 0
    }
}

impl RepoStatus {
    /// True exactly when the repository needs no attention: no dirtiness
    /// indication of either shape and no branch in either list.
    pub fn is_clean(&self) -> (r: bool)
        ensures
            r == self.deep_view().is_clean(),
    {
        !self.no_commits && self.dirty.len() == 0 && self.untracked_branches.len() == 0
            && self.unpushed_branches.len() == 0
    }
}

/// Clean is exactly the conjunction of the three fields being empty and
/// the dirtiness bit being off; any single non-empty field forces
/// non-clean classification.
pub proof fn lemma_clean_definition(s: StatusView)
    ensures
        s.is_clean() <==> (!s.no_commits && s.dirty.len() == 0 && s.untracked.len() == 0
            && s.unpushed.len() == 0),
        s.is_dirty() ==> !s.is_clean(),
        s.untracked.len() > 0 ==> !s.is_clean(),
        s.unpushed.len() > 0 ==> !s.is_clean(),
{
}

} // verus!
