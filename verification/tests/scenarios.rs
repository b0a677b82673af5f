//! End-to-end scenarios: outcomes in, rendered report out.

use repofleet::branch::{BranchObservation, UpstreamState};
use repofleet::report::{aggregate, Report, ScanOutcome};
use repofleet::render::render;
use repofleet::scan::build_status;
use repofleet::status::{ChangeKind, DirtyItem, RepoStatus};

fn outcome(path: &[u8], status: RepoStatus) -> ScanOutcome {
    ScanOutcome { path: path.to_vec(), status }
}

fn obs(name: &[u8], fetch: UpstreamState, push: UpstreamState) -> BranchObservation {
    BranchObservation { name: name.to_vec(), fetch, push }
}

#[test]
fn empty_root_renders_empty_report() {
    let report: Report = aggregate(Vec::new());
    assert!(report.clean.is_empty());
    assert!(report.dirty.is_empty());
    assert_eq!(render(&report), Vec::<u8>::new());
}

#[test]
fn non_repository_directories_are_skipped() {
    // A plain folder yields no outcome at all, so the report stays
    // empty no matter how many such folders the root holds.
    let report = aggregate(Vec::new());
    assert_eq!(render(&report), b"".to_vec());
}

#[test]
fn repository_with_no_commits_is_dirty() {
    let status = build_status(true, Vec::new(), Vec::new());
    assert!(!status.is_clean());
    assert!(status.untracked_branches.is_empty());
    assert!(status.unpushed_branches.is_empty());
    let report = aggregate(vec![outcome(b"/home/me/fresh", status)]);
    assert!(report.clean.is_empty());
    assert_eq!(report.dirty.len(), 1);
    assert_eq!(render(&report), b"fresh\n\tDIRTY\n".to_vec());
}

#[test]
fn fully_pushed_repository_is_clean() {
    let branches = vec![obs(b"main", UpstreamState::Matches, UpstreamState::Matches)];
    let status = build_status(false, Vec::new(), branches);
    assert!(status.is_clean());
    let report = aggregate(vec![outcome(b"/home/me/tidy", status)]);
    assert_eq!(report.clean.len(), 1);
    assert!(report.dirty.is_empty());
    assert_eq!(render(&report), b"tidy\n".to_vec());
}

#[test]
fn branch_without_upstream_is_untracked() {
    let branches = vec![obs(b"feature", UpstreamState::NotConfigured, UpstreamState::NotConfigured)];
    let status = build_status(false, Vec::new(), branches);
    assert!(!status.is_clean());
    assert_eq!(status.untracked_branches, vec![b"feature".to_vec()]);
    assert!(status.unpushed_branches.is_empty());
    let report = aggregate(vec![outcome(b"/home/me/work", status)]);
    assert_eq!(render(&report), b"work\n\tUNTRACKED feature\n".to_vec());
}

#[test]
fn branch_with_diverged_upstream_is_unpushed() {
    let branches = vec![obs(b"main", UpstreamState::Differs, UpstreamState::Differs)];
    let status = build_status(false, Vec::new(), branches);
    assert!(!status.is_clean());
    assert!(status.untracked_branches.is_empty());
    assert_eq!(status.unpushed_branches, vec![b"main".to_vec()]);
    let report = aggregate(vec![outcome(b"/home/me/work", status)]);
    assert_eq!(render(&report), b"work\n\tUNPUSHED main\n".to_vec());
}

#[test]
fn diverged_push_upstream_wins_over_matching_fetch() {
    // The push-direction upstream exists and differs from the tip, so
    // the branch is unpushed even though the fetch-direction upstream
    // matches.
    let branches = vec![obs(b"main", UpstreamState::Matches, UpstreamState::Differs)];
    let status = build_status(false, Vec::new(), branches);
    assert!(status.untracked_branches.is_empty());
    assert_eq!(status.unpushed_branches, vec![b"main".to_vec()]);
    let report = aggregate(vec![outcome(b"/home/me/work", status)]);
    assert_eq!(render(&report), b"work\n\tUNPUSHED main\n".to_vec());
}

#[test]
fn report_is_independent_of_completion_order() {
    // The same outcomes handed over in two different orders aggregate
    // to the same report and render byte-identically.
    let mk = |path: &[u8], clean: bool| {
        let status = if clean {
            build_status(false, Vec::new(), Vec::new())
        } else {
            build_status(
                false,
                vec![DirtyItem { path: b"file".to_vec(), kind: ChangeKind::Modified }],
                Vec::new(),
            )
        };
        outcome(path, status)
    };
    let first = aggregate(vec![
        mk(b"/r/bb", true),
        mk(b"/r/aa", false),
        mk(b"/r/cc", true),
        mk(b"/r/dd", false),
    ]);
    let second = aggregate(vec![
        mk(b"/r/dd", false),
        mk(b"/r/cc", true),
        mk(b"/r/bb", true),
        mk(b"/r/aa", false),
    ]);
    assert_eq!(first, second);
    assert_eq!(render(&first), render(&second));
}

#[test]
fn report_halves_are_strictly_sorted_by_path() {
    let clean_status = || build_status(false, Vec::new(), Vec::new());
    let dirty_status = || build_status(true, Vec::new(), Vec::new());
    let report = aggregate(vec![
        outcome(b"/r/zz", clean_status()),
        outcome(b"/r/mm", dirty_status()),
        outcome(b"/r/aa", clean_status()),
        outcome(b"/r/bb", dirty_status()),
    ]);
    assert_eq!(report.clean, vec![b"/r/aa".to_vec(), b"/r/zz".to_vec()]);
    assert_eq!(report.dirty.len(), 2);
    assert_eq!(report.dirty[0].path, b"/r/bb".to_vec());
    assert_eq!(report.dirty[1].path, b"/r/mm".to_vec());
    assert_eq!(render(&report), b"aa\nzz\nbb\n\tDIRTY\nmm\n\tDIRTY\n".to_vec());
}

#[test]
fn every_repository_lands_in_exactly_one_half() {
    let report = aggregate(vec![
        outcome(b"/r/one", build_status(false, Vec::new(), Vec::new())),
        outcome(b"/r/two", build_status(true, Vec::new(), Vec::new())),
    ]);
    assert!(report.clean.contains(&b"/r/one".to_vec()));
    assert!(!report.dirty.iter().any(|o| o.path == b"/r/one".to_vec()));
    assert!(report.dirty.iter().any(|o| o.path == b"/r/two".to_vec()));
    assert!(!report.clean.contains(&b"/r/two".to_vec()));
}
