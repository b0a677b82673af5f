//! Unit tests for the ordering, classification, sorting and rendering
//! pieces.

use repofleet::branch::{classify, classify_branches, BranchClass, BranchObservation,
    UpstreamState};
use repofleet::order::bytes_le;
use repofleet::render::{base_name, kind_code_ix, render};
use repofleet::report::{aggregate, ScanOutcome};
use repofleet::scan::{build_status, sort_items};
use repofleet::status::{ChangeKind, DirtyItem, RepoStatus};

fn item(path: &[u8], kind: ChangeKind) -> DirtyItem {
    DirtyItem { path: path.to_vec(), kind }
}

#[test]
fn byte_order_is_lexicographic() {
    assert!(bytes_le(&b"".to_vec(), &b"a".to_vec()));
    assert!(bytes_le(&b"a".to_vec(), &b"a".to_vec()));
    assert!(bytes_le(&b"a".to_vec(), &b"ab".to_vec()));
    assert!(!bytes_le(&b"ab".to_vec(), &b"a".to_vec()));
    assert!(bytes_le(&b"abc".to_vec(), &b"abd".to_vec()));
    assert!(!bytes_le(&b"b".to_vec(), &b"ab".to_vec()));
}

#[test]
fn base_name_takes_final_component() {
    assert_eq!(base_name(&b"/home/me/repo".to_vec()), b"repo".to_vec());
    assert_eq!(base_name(&b"repo".to_vec()), b"repo".to_vec());
    assert_eq!(base_name(&b"".to_vec()), b"".to_vec());
    assert_eq!(base_name(&b"a/".to_vec()), b"".to_vec());
}

#[test]
fn classification_is_exclusive() {
    // One class per observation pair; the push direction decides, and
    // the fetch direction stands in only when no push-direction
    // upstream is configured.
    assert_eq!(classify(UpstreamState::Differs, UpstreamState::Matches), BranchClass::Pushed);
    assert_eq!(classify(UpstreamState::Matches, UpstreamState::NotConfigured), BranchClass::Pushed);
    assert_eq!(classify(UpstreamState::Matches, UpstreamState::Differs), BranchClass::Unpushed);
    assert_eq!(classify(UpstreamState::Matches, UpstreamState::NotFound), BranchClass::Unpushed);
    assert_eq!(
        classify(UpstreamState::NotConfigured, UpstreamState::NotConfigured),
        BranchClass::Untracked
    );
    assert_eq!(classify(UpstreamState::NotConfigured, UpstreamState::Differs), BranchClass::Unpushed);
    assert_eq!(classify(UpstreamState::NotFound, UpstreamState::NotConfigured), BranchClass::Unpushed);
    assert_eq!(classify(UpstreamState::NotFound, UpstreamState::NotFound), BranchClass::Unpushed);
}

#[test]
fn branch_lists_keep_discovery_order() {
    let (untracked, unpushed) = classify_branches(vec![
        BranchObservation {
            name: b"zeta".to_vec(),
            fetch: UpstreamState::NotConfigured,
            push: UpstreamState::NotConfigured,
        },
        BranchObservation {
            name: b"alpha".to_vec(),
            fetch: UpstreamState::Differs,
            push: UpstreamState::Differs,
        },
        BranchObservation {
            name: b"beta".to_vec(),
            fetch: UpstreamState::NotConfigured,
            push: UpstreamState::NotConfigured,
        },
        BranchObservation {
            name: b"done".to_vec(),
            fetch: UpstreamState::Matches,
            push: UpstreamState::NotConfigured,
        },
    ]);
    assert_eq!(untracked, vec![b"zeta".to_vec(), b"beta".to_vec()]);
    assert_eq!(unpushed, vec![b"alpha".to_vec()]);
}

#[test]
fn items_sort_by_path_then_kind() {
    let sorted = sort_items(vec![
        item(b"b", ChangeKind::Added),
        item(b"a", ChangeKind::Modified),
        item(b"a", ChangeKind::Removed),
        item(b"a", ChangeKind::Unknown),
    ]);
    assert_eq!(
        sorted,
        vec![
            item(b"a", ChangeKind::Unknown),
            item(b"a", ChangeKind::Removed),
            item(b"a", ChangeKind::Modified),
            item(b"b", ChangeKind::Added),
        ]
    );
}

#[test]
fn kind_codes_match_their_letters() {
    assert_eq!(kind_code_ix(ChangeKind::Removed), b'D');
    assert_eq!(kind_code_ix(ChangeKind::Added), b'A');
    assert_eq!(kind_code_ix(ChangeKind::Modified), b'M');
    assert_eq!(kind_code_ix(ChangeKind::TypeChange), b'T');
    assert_eq!(kind_code_ix(ChangeKind::Renamed), b'R');
    assert_eq!(kind_code_ix(ChangeKind::Copied), b'C');
    assert_eq!(kind_code_ix(ChangeKind::IntentToAdd), b'A');
    assert_eq!(kind_code_ix(ChangeKind::Conflict), b'X');
    assert_eq!(kind_code_ix(ChangeKind::Unknown), b'?');
}

#[test]
fn clean_needs_every_field_empty() {
    let clean = RepoStatus {
        no_commits: false,
        dirty: Vec::new(),
        untracked_branches: Vec::new(),
        unpushed_branches: Vec::new(),
    };
    assert!(clean.is_clean());
    let mut with_item = clean.clone();
    with_item.dirty.push(item(b"f", ChangeKind::Modified));
    assert!(!with_item.is_clean());
    let mut with_untracked = clean.clone();
    with_untracked.untracked_branches.push(b"feature".to_vec());
    assert!(!with_untracked.is_clean());
    let mut with_unpushed = clean.clone();
    with_unpushed.unpushed_branches.push(b"main".to_vec());
    assert!(!with_unpushed.is_clean());
    let mut with_no_commits = clean.clone();
    with_no_commits.no_commits = true;
    assert!(!with_no_commits.is_clean());
}

#[test]
fn dirty_block_lists_items_then_branches() {
    let status = build_status(
        false,
        vec![item(b"src/lib.rs", ChangeKind::Modified), item(b"README", ChangeKind::Added)],
        vec![
            BranchObservation {
                name: b"feature".to_vec(),
                fetch: UpstreamState::NotConfigured,
                push: UpstreamState::NotConfigured,
            },
            BranchObservation {
                name: b"main".to_vec(),
                fetch: UpstreamState::Differs,
                push: UpstreamState::Differs,
            },
        ],
    );
    let report = aggregate(vec![ScanOutcome { path: b"/r/proj".to_vec(), status }]);
    assert_eq!(
        render(&report),
        b"proj\n\tA README\n\tM src/lib.rs\n\tUNTRACKED feature\n\tUNPUSHED main\n".to_vec()
    );
}
