//! The properties the library guarantees across functions: which
//! outcomes appear where in a report, that the report is strictly
//! sorted, and that it does not depend on the order the scans finished
//! in.

use vstd::prelude::*;

use crate::branch::{names_of_class, BranchClass, ObsView};
use crate::order::{lemma_lex_le_antisym, lex_le};
use crate::report::{aggregate_post, clean_paths_of, distinct_paths, unclean_of, OutcomeView,
    ReportView};
use crate::render::render_report;

verus! {

/// A path is among the clean paths exactly when some clean outcome
/// carries it.
pub proof fn lemma_clean_paths_contains(s: Seq<OutcomeView>, p: Seq<u8>)
    ensures
        clean_paths_of(s).contains(p) <==> exists|i: int|
            0 <= i < s.len() && (#[trigger] s[i]).status.is_clean() && s[i].path == p,
    decreases s.len(),
{
    if s.len() > 0 {
        let t = s.drop_last();
        lemma_clean_paths_contains(t, p);
        assert(forall|i: int| 0 <= i < t.len() ==> #[trigger] t[i] == s[i]);
        if clean_paths_of(s).contains(p) {
            if s.last().status.is_clean() {
                let c = clean_paths_of(t).push(s.last().path);
                let j = choose|j: int| 0 <= j < c.len() && c[j] == p;
                if j < c.len() - 1 {
                    assert(clean_paths_of(t).contains(p));
                } else {
                    assert(s[s.len() - 1].status.is_clean() && s[s.len() - 1].path == p);
                }
            } else {
                assert(clean_paths_of(t).contains(p));
            }
        }
        if exists|i: int| 0 <= i < s.len() && (#[trigger] s[i]).status.is_clean() && s[i].path
            == p {
            let i = choose|i: int|
                0 <= i < s.len() && (#[trigger] s[i]).status.is_clean() && s[i].path == p;
            if i < s.len() - 1 {
                assert(t[i].status.is_clean() && t[i].path == p);
                assert(clean_paths_of(t).contains(p));
                let j = choose|j: int|
                    0 <= j < clean_paths_of(t).len() && clean_paths_of(t)[j] == p;
                if s.last().status.is_clean() {
                    assert(clean_paths_of(s)[j] == p);
                } else {
                    assert(clean_paths_of(s)[j] == p);
                }
            } else {
                assert(s.last().status.is_clean());
                assert(clean_paths_of(s).last() == p);
            }
        }
    }
}

/// An outcome is among the non-clean outcomes exactly when the input
/// holds it and it is not clean.
pub proof fn lemma_unclean_contains(s: Seq<OutcomeView>, e: OutcomeView)
    ensures
        unclean_of(s).contains(e) <==> s.contains(e) && !e.status.is_clean(),
    decreases s.len(),
{
    if s.len() > 0 {
        let t = s.drop_last();
        lemma_unclean_contains(t, e);
        assert(forall|i: int| 0 <= i < t.len() ==> #[trigger] t[i] == s[i]);
        if unclean_of(s).contains(e) {
            if !s.last().status.is_clean() {
                let c = unclean_of(t).push(s.last());
                let j = choose|j: int| 0 <= j < c.len() && c[j] == e;
                if j < c.len() - 1 {
                    assert(unclean_of(t).contains(e));
                    assert(t.contains(e));
                    let i = choose|i: int| 0 <= i < t.len() && t[i] == e;
                    assert(s[i] == e);
                } else {
                    assert(s[s.len() - 1] == e);
                }
            } else {
                assert(unclean_of(t).contains(e));
                let i = choose|i: int| 0 <= i < t.len() && t[i] == e;
                assert(s[i] == e);
            }
        }
        if s.contains(e) && !e.status.is_clean() {
            let i = choose|i: int| 0 <= i < s.len() && s[i] == e;
            if i < s.len() - 1 {
                assert(t[i] == e);
                assert(t.contains(e));
                assert(unclean_of(t).contains(e));
                let j = choose|j: int| 0 <= j < unclean_of(t).len() && unclean_of(t)[j] == e;
                assert(unclean_of(s)[j] == e);
            } else {
                assert(!s.last().status.is_clean());
                assert(unclean_of(s).last() == e);
            }
        }
    }
}

/// A path occurs under some non-clean outcome exactly when the input
/// holds a non-clean outcome with that path.
pub proof fn lemma_unclean_path_contains(s: Seq<OutcomeView>, p: Seq<u8>)
    ensures
        (exists|k: int|
            0 <= k < unclean_of(s).len() && (#[trigger] unclean_of(s)[k]).path == p) <==> exists|
            i: int,
        |
            0 <= i < s.len() && !(#[trigger] s[i]).status.is_clean() && s[i].path == p,
{
    if exists|k: int| 0 <= k < unclean_of(s).len() && (#[trigger] unclean_of(s)[k]).path == p {
        let k = choose|k: int|
            0 <= k < unclean_of(s).len() && (#[trigger] unclean_of(s)[k]).path == p;
        let e = unclean_of(s)[k];
        assert(unclean_of(s).contains(e));
        lemma_unclean_contains(s, e);
        let i = choose|i: int| 0 <= i < s.len() && s[i] == e;
        assert(0 <= i < s.len() && !s[i].status.is_clean() && s[i].path == p);
    }
    if exists|i: int| 0 <= i < s.len() && !(#[trigger] s[i]).status.is_clean() && s[i].path == p {
        let i = choose|i: int|
            0 <= i < s.len() && !(#[trigger] s[i]).status.is_clean() && s[i].path == p;
        let e = s[i];
        assert(s.contains(e));
        lemma_unclean_contains(s, e);
        let k = choose|k: int| 0 <= k < unclean_of(s).len() && unclean_of(s)[k] == e;
        assert(unclean_of(s)[k].path == p);
    }
}

/// With distinct input paths, the clean paths are pairwise distinct.
pub proof fn lemma_clean_paths_distinct(s: Seq<OutcomeView>)
    requires
        distinct_paths(s),
    ensures
        clean_paths_of(s).no_duplicates(),
    decreases s.len(),
{
    if s.len() > 0 {
        let t = s.drop_last();
        assert(forall|i: int| 0 <= i < t.len() ==> #[trigger] t[i] == s[i]);
        lemma_clean_paths_distinct(t);
        if s.last().status.is_clean() {
            if clean_paths_of(t).contains(s.last().path) {
                lemma_clean_paths_contains(t, s.last().path);
                let i = choose|i: int|
                    0 <= i < t.len() && (#[trigger] t[i]).status.is_clean() && t[i].path
                        == s.last().path;
                assert(s[i].path == s[s.len() - 1].path);
                assert(false);
            }
            assert(clean_paths_of(s) =~= clean_paths_of(t).push(s.last().path));
        }
    }
}

/// With distinct input paths, the non-clean outcomes carry pairwise
/// distinct paths.
pub proof fn lemma_unclean_distinct_paths(s: Seq<OutcomeView>)
    requires
        distinct_paths(s),
    ensures
        forall|i: int, j: int|
            0 <= i < j < unclean_of(s).len() ==> (#[trigger] unclean_of(s)[i]).path != (
            #[trigger] unclean_of(s)[j]).path,
    decreases s.len(),
{
    if s.len() > 0 {
        let t = s.drop_last();
        assert(forall|i: int| 0 <= i < t.len() ==> #[trigger] t[i] == s[i]);
        lemma_unclean_distinct_paths(t);
        if !s.last().status.is_clean() {
            assert(unclean_of(s) =~= unclean_of(t).push(s.last()));
            assert forall|i: int, j: int| 0 <= i < j < unclean_of(s).len() implies (
            #[trigger] unclean_of(s)[i]).path != (#[trigger] unclean_of(s)[j]).path by {
                if j == unclean_of(s).len() - 1 {
                    if unclean_of(s)[i].path == s.last().path {
                        lemma_unclean_path_contains(t, s.last().path);
                        let w = choose|w: int|
                            0 <= w < t.len() && !(#[trigger] t[w]).status.is_clean() && t[w].path
                                == s.last().path;
                        assert(s[w].path == s[s.len() - 1].path);
                        assert(false);
                    }
                }
            }
        }
    }
}

/// With distinct input paths both halves of an aggregated report are
/// strictly sorted by path, whatever order the outcomes arrived in.
pub proof fn lemma_report_strictly_sorted(s: Seq<OutcomeView>, r: ReportView)
    requires
        aggregate_post(s, r),
        distinct_paths(s),
    ensures
        forall|i: int, j: int|
            0 <= i < j < r.clean.len() ==> lex_le(#[trigger] r.clean[i], #[trigger] r.clean[j])
                && r.clean[i] != r.clean[j],
        forall|i: int, j: int|
            0 <= i < j < r.dirty.len() ==> lex_le(
                (#[trigger] r.dirty[i]).path,
                (#[trigger] r.dirty[j]).path,
            ) && r.dirty[i].path != r.dirty[j].path,
{
    broadcast use vstd::seq_lib::group_to_multiset_ensures;

    lemma_clean_paths_distinct(s);
    clean_paths_of(s).lemma_multiset_has_no_duplicates();
    r.clean.lemma_multiset_has_no_duplicates_conv();
    lemma_unclean_distinct_paths(s);
    assert(unclean_of(s).no_duplicates()) by {
        assert forall|i: int, j: int|
            0 <= i < unclean_of(s).len() && 0 <= j < unclean_of(s).len() && i != j
            implies unclean_of(s)[i] != unclean_of(s)[j] by {
            if i < j {
                assert(unclean_of(s)[i].path != unclean_of(s)[j].path);
            } else {
                assert(unclean_of(s)[j].path != unclean_of(s)[i].path);
            }
        }
    }
    unclean_of(s).lemma_multiset_has_no_duplicates();
    r.dirty.lemma_multiset_has_no_duplicates_conv();
    assert forall|i: int, j: int| 0 <= i < j < r.clean.len() implies lex_le(
        #[trigger] r.clean[i],
        #[trigger] r.clean[j],
    ) && r.clean[i] != r.clean[j] by {
        assert(crate::order::bytes_leq()(r.clean[i], r.clean[j]));
    }
    assert forall|i: int, j: int| 0 <= i < j < r.dirty.len() implies lex_le(
        (#[trigger] r.dirty[i]).path,
        (#[trigger] r.dirty[j]).path,
    ) && r.dirty[i].path != r.dirty[j].path by {
        assert(crate::report::out_leq()(r.dirty[i], r.dirty[j]));
        if r.dirty[i].path == r.dirty[j].path {
            assert(r.dirty[i] != r.dirty[j]);
            assert(r.dirty.contains(r.dirty[i]));
            assert(r.dirty.contains(r.dirty[j]));
            assert(r.dirty.to_multiset().count(r.dirty[i]) > 0);
            assert(unclean_of(s).to_multiset().count(r.dirty[i]) > 0);
            assert(unclean_of(s).contains(r.dirty[i]));
            assert(r.dirty.to_multiset().count(r.dirty[j]) > 0);
            assert(unclean_of(s).to_multiset().count(r.dirty[j]) > 0);
            assert(unclean_of(s).contains(r.dirty[j]));
            let k = choose|k: int| 0 <= k < unclean_of(s).len() && unclean_of(s)[k] == r.dirty[i];
            let l = choose|l: int| 0 <= l < unclean_of(s).len() && unclean_of(s)[l] == r.dirty[j];
            assert(k != l);
            assert(false);
        }
    }
}

/// Two sequences of byte strings that are strictly sorted and have the
/// same members are the same sequence.
pub proof fn lemma_strict_sorted_bytes_equal(x: Seq<Seq<u8>>, y: Seq<Seq<u8>>)
    requires
        forall|i: int, j: int|
            0 <= i < j < x.len() ==> lex_le(#[trigger] x[i], #[trigger] x[j]) && x[i] != x[j],
        forall|i: int, j: int|
            0 <= i < j < y.len() ==> lex_le(#[trigger] y[i], #[trigger] y[j]) && y[i] != y[j],
        forall|p: Seq<u8>| x.contains(p) <==> y.contains(p),
    ensures
        x == y,
    decreases x.len(),
{
    if x.len() == 0 {
        if y.len() > 0 {
            assert(y.contains(y[0]));
            assert(x.contains(y[0]));
            assert(false);
        }
        assert(x =~= y);
    } else {
        assert(x.contains(x[0]));
        assert(y.contains(x[0]));
        let j = choose|j: int| 0 <= j < y.len() && y[j] == x[0];
        assert(y.contains(y[0]));
        assert(x.contains(y[0]));
        let k = choose|k: int| 0 <= k < x.len() && x[k] == y[0];
        if j > 0 && k > 0 {
            assert(lex_le(y[0], y[j]));
            assert(lex_le(x[0], x[k]));
            lemma_lex_le_antisym(x[0], y[0]);
        }
        assert(x[0] == y[0]);
        let xt = x.drop_first();
        let yt = y.drop_first();
        assert(forall|i: int| 0 <= i < xt.len() ==> #[trigger] xt[i] == x[i + 1]);
        assert(forall|i: int| 0 <= i < yt.len() ==> #[trigger] yt[i] == y[i + 1]);
        assert forall|p: Seq<u8>| xt.contains(p) <==> yt.contains(p) by {
            if xt.contains(p) {
                let m = choose|m: int| 0 <= m < xt.len() && xt[m] == p;
                assert(x[m + 1] == p);
                assert(x.contains(p));
                assert(p != x[0]);
                assert(y.contains(p));
                let w = choose|w: int| 0 <= w < y.len() && y[w] == p;
                assert(w != 0);
                assert(yt[w - 1] == p);
                assert(yt.contains(yt[w - 1]));
            }
            if yt.contains(p) {
                let m = choose|m: int| 0 <= m < yt.len() && yt[m] == p;
                assert(y[m + 1] == p);
                assert(y.contains(p));
                assert(p != y[0]);
                assert(x.contains(p));
                let w = choose|w: int| 0 <= w < x.len() && x[w] == p;
                assert(w != 0);
                assert(xt[w - 1] == p);
                assert(xt.contains(xt[w - 1]));
            }
        }
        lemma_strict_sorted_bytes_equal(xt, yt);
        assert(x.len() == y.len());
        assert forall|i: int| 0 <= i < x.len() implies x[i] == y[i] by {
            if i > 0 {
                assert(xt[i - 1] == yt[i - 1]);
            }
        }
        assert(x =~= y);
    }
}

/// Two sequences of outcomes that are strictly sorted by path and have
/// the same members are the same sequence.
pub proof fn lemma_strict_path_sorted_equal(x: Seq<OutcomeView>, y: Seq<OutcomeView>)
    requires
        forall|i: int, j: int|
            0 <= i < j < x.len() ==> lex_le((#[trigger] x[i]).path, (#[trigger] x[j]).path)
                && x[i].path != x[j].path,
        forall|i: int, j: int|
            0 <= i < j < y.len() ==> lex_le((#[trigger] y[i]).path, (#[trigger] y[j]).path)
                && y[i].path != y[j].path,
        forall|e: OutcomeView| x.contains(e) <==> y.contains(e),
    ensures
        x == y,
    decreases x.len(),
{
    if x.len() == 0 {
        if y.len() > 0 {
            assert(y.contains(y[0]));
            assert(x.contains(y[0]));
            assert(false);
        }
        assert(x =~= y);
    } else {
        assert(x.contains(x[0]));
        assert(y.contains(x[0]));
        let j = choose|j: int| 0 <= j < y.len() && y[j] == x[0];
        assert(y.contains(y[0]));
        assert(x.contains(y[0]));
        let k = choose|k: int| 0 <= k < x.len() && x[k] == y[0];
        if j > 0 && k > 0 {
            assert(lex_le(y[0].path, y[j].path));
            assert(lex_le(x[0].path, x[k].path));
            lemma_lex_le_antisym(x[0].path, y[0].path);
            assert(x[0].path == y[0].path);
            assert(x[k].path == x[0].path);
            assert(false);
        }
        assert(x[0] == y[0]);
        let xt = x.drop_first();
        let yt = y.drop_first();
        assert(forall|i: int| 0 <= i < xt.len() ==> #[trigger] xt[i] == x[i + 1]);
        assert(forall|i: int| 0 <= i < yt.len() ==> #[trigger] yt[i] == y[i + 1]);
        assert forall|e: OutcomeView| xt.contains(e) <==> yt.contains(e) by {
            if xt.contains(e) {
                let m = choose|m: int| 0 <= m < xt.len() && xt[m] == e;
                assert(x[m + 1] == e);
                assert(x.contains(e));
                assert(e.path != x[0].path);
                assert(y.contains(e));
                let w = choose|w: int| 0 <= w < y.len() && y[w] == e;
                assert(w != 0);
                assert(yt[w - 1] == e);
                assert(yt.contains(yt[w - 1]));
            }
            if yt.contains(e) {
                let m = choose|m: int| 0 <= m < yt.len() && yt[m] == e;
                assert(y[m + 1] == e);
                assert(y.contains(e));
                assert(e.path != y[0].path);
                assert(x.contains(e));
                let w = choose|w: int| 0 <= w < x.len() && x[w] == e;
                assert(w != 0);
                assert(xt[w - 1] == e);
                assert(xt.contains(xt[w - 1]));
            }
        }
        lemma_strict_path_sorted_equal(xt, yt);
        assert(x.len() == y.len());
        assert forall|i: int| 0 <= i < x.len() implies x[i] == y[i] by {
            if i > 0 {
                assert(xt[i - 1] == yt[i - 1]);
            }
        }
        assert(x =~= y);
    }
}

/// The report is a function of the collected outcomes alone: two runs
/// that collect the same outcomes, in any order, aggregate to the same
/// report and render the same bytes. Running an unchanged scan twice
/// therefore prints byte-identical reports.
pub proof fn lemma_aggregate_deterministic(
    x: Seq<OutcomeView>,
    y: Seq<OutcomeView>,
    a: ReportView,
    b: ReportView,
)
    requires
        x.to_multiset() == y.to_multiset(),
        distinct_paths(x),
        aggregate_post(x, a),
        aggregate_post(y, b),
    ensures
        a == b,
        render_report(a) == render_report(b),
{
    broadcast use vstd::seq_lib::group_to_multiset_ensures;

    assert forall|e: OutcomeView| x.contains(e) <==> y.contains(e) by {
        assert(x.to_multiset().count(e) == y.to_multiset().count(e));
        assert(x.contains(e) <==> x.to_multiset().count(e) > 0);
        assert(y.contains(e) <==> y.to_multiset().count(e) > 0);
    }
    assert(distinct_paths(y)) by {
        assert(x.no_duplicates()) by {
            assert forall|i: int, j: int|
                0 <= i < x.len() && 0 <= j < x.len() && i != j implies x[i] != x[j] by {
                if i < j {
                    assert(x[i].path != x[j].path);
                } else {
                    assert(x[j].path != x[i].path);
                }
            }
        }
        x.lemma_multiset_has_no_duplicates();
        y.lemma_multiset_has_no_duplicates_conv();
        assert forall|i: int, j: int| 0 <= i < j < y.len() implies (#[trigger] y[i]).path != (
        #[trigger] y[j]).path by {
            if y[i].path == y[j].path {
                assert(y[i] != y[j]);
                assert(y.contains(y[i]));
                assert(y.contains(y[j]));
                assert(x.contains(y[i]));
                assert(x.contains(y[j]));
                let k = choose|k: int| 0 <= k < x.len() && x[k] == y[i];
                let l = choose|l: int| 0 <= l < x.len() && x[l] == y[j];
                assert(k != l);
                assert(false);
            }
        }
    }
    lemma_report_strictly_sorted(x, a);
    lemma_report_strictly_sorted(y, b);
    assert forall|p: Seq<u8>| a.clean.contains(p) <==> b.clean.contains(p) by {
        assert(a.clean.contains(p) <==> clean_paths_of(x).contains(p)) by {
            assert(a.clean.to_multiset().count(p) == clean_paths_of(x).to_multiset().count(p));
        }
        assert(b.clean.contains(p) <==> clean_paths_of(y).contains(p)) by {
            assert(b.clean.to_multiset().count(p) == clean_paths_of(y).to_multiset().count(p));
        }
        lemma_clean_paths_contains(x, p);
        lemma_clean_paths_contains(y, p);
        assert((exists|i: int|
            0 <= i < x.len() && (#[trigger] x[i]).status.is_clean() && x[i].path == p) <==> (
        exists|i: int|
            0 <= i < y.len() && (#[trigger] y[i]).status.is_clean() && y[i].path == p)) by {
            if exists|i: int|
                0 <= i < x.len() && (#[trigger] x[i]).status.is_clean() && x[i].path == p {
                let i = choose|i: int|
                    0 <= i < x.len() && (#[trigger] x[i]).status.is_clean() && x[i].path == p;
                assert(x.contains(x[i]));
                assert(y.contains(x[i]));
                let w = choose|w: int| 0 <= w < y.len() && y[w] == x[i];
                assert(y[w].status.is_clean() && y[w].path == p);
            }
            if exists|i: int|
                0 <= i < y.len() && (#[trigger] y[i]).status.is_clean() && y[i].path == p {
                let i = choose|i: int|
                    0 <= i < y.len() && (#[trigger] y[i]).status.is_clean() && y[i].path == p;
                assert(y.contains(y[i]));
                assert(x.contains(y[i]));
                let w = choose|w: int| 0 <= w < x.len() && x[w] == y[i];
                assert(x[w].status.is_clean() && x[w].path == p);
            }
        }
    }
    assert forall|e: OutcomeView| a.dirty.contains(e) <==> b.dirty.contains(e) by {
        assert(a.dirty.contains(e) <==> unclean_of(x).contains(e)) by {
            assert(a.dirty.to_multiset().count(e) == unclean_of(x).to_multiset().count(e));
        }
        assert(b.dirty.contains(e) <==> unclean_of(y).contains(e)) by {
            assert(b.dirty.to_multiset().count(e) == unclean_of(y).to_multiset().count(e));
        }
        lemma_unclean_contains(x, e);
        lemma_unclean_contains(y, e);
    }
    lemma_strict_sorted_bytes_equal(a.clean, b.clean);
    lemma_strict_path_sorted_equal(a.dirty, b.dirty);
}

/// Partition completeness: every collected outcome lands in exactly one
/// half of the report, the clean half exactly when its status is clean;
/// and the report holds nothing that was not collected. Directories
/// that are not repositories never become outcomes, so they appear in
/// neither half.
pub proof fn lemma_partition_complete(s: Seq<OutcomeView>, r: ReportView)
    requires
        aggregate_post(s, r),
        distinct_paths(s),
    ensures
        forall|i: int|
            0 <= i < s.len() ==> ((#[trigger] s[i]).status.is_clean() <==> r.clean.contains(
                s[i].path,
            )),
        forall|i: int|
            0 <= i < s.len() ==> (!(#[trigger] s[i]).status.is_clean() <==> r.dirty.contains(
                s[i],
            )),
        forall|p: Seq<u8>|
            #[trigger] r.clean.contains(p) ==> exists|i: int|
                0 <= i < s.len() && (#[trigger] s[i]).status.is_clean() && s[i].path == p,
        forall|e: OutcomeView| #[trigger] r.dirty.contains(e) ==> s.contains(e)
            && !e.status.is_clean(),
        forall|p: Seq<u8>|
            !(#[trigger] r.clean.contains(p) && exists|k: int|
                0 <= k < r.dirty.len() && (#[trigger] r.dirty[k]).path == p),
{
    broadcast use vstd::seq_lib::group_to_multiset_ensures;

    assert forall|p: Seq<u8>| r.clean.contains(p) <==> clean_paths_of(s).contains(p) by {
        assert(r.clean.to_multiset().count(p) == clean_paths_of(s).to_multiset().count(p));
    }
    assert forall|e: OutcomeView| r.dirty.contains(e) <==> unclean_of(s).contains(e) by {
        assert(r.dirty.to_multiset().count(e) == unclean_of(s).to_multiset().count(e));
    }
    assert forall|i: int| 0 <= i < s.len() implies ((#[trigger] s[i]).status.is_clean()
        <==> r.clean.contains(s[i].path)) by {
        lemma_clean_paths_contains(s, s[i].path);
        if s[i].status.is_clean() {
        } else {
            if r.clean.contains(s[i].path) {
                let j = choose|j: int|
                    0 <= j < s.len() && (#[trigger] s[j]).status.is_clean() && s[j].path
                        == s[i].path;
                assert(j != i);
                assert(false);
            }
        }
    }
    assert forall|i: int| 0 <= i < s.len() implies (!(#[trigger] s[i]).status.is_clean()
        <==> r.dirty.contains(s[i])) by {
        lemma_unclean_contains(s, s[i]);
        assert(s.contains(s[i]));
    }
    assert forall|p: Seq<u8>| #[trigger] r.clean.contains(p) implies exists|i: int|
        0 <= i < s.len() && (#[trigger] s[i]).status.is_clean() && s[i].path == p by {
        lemma_clean_paths_contains(s, p);
    }
    assert forall|e: OutcomeView| #[trigger] r.dirty.contains(e) implies s.contains(e)
        && !e.status.is_clean() by {
        lemma_unclean_contains(s, e);
    }
    assert forall|p: Seq<u8>|
        !(#[trigger] r.clean.contains(p) && exists|k: int|
            0 <= k < r.dirty.len() && (#[trigger] r.dirty[k]).path == p) by {
        if r.clean.contains(p) && exists|k: int|
            0 <= k < r.dirty.len() && (#[trigger] r.dirty[k]).path == p {
            lemma_clean_paths_contains(s, p);
            let i = choose|i: int|
                0 <= i < s.len() && (#[trigger] s[i]).status.is_clean() && s[i].path == p;
            let k = choose|k: int| 0 <= k < r.dirty.len() && (#[trigger] r.dirty[k]).path == p;
            let e = r.dirty[k];
            assert(r.dirty.contains(e));
            assert(unclean_of(s).contains(e));
            lemma_unclean_contains(s, e);
            let j = choose|j: int| 0 <= j < s.len() && s[j] == e;
            assert(j != i);
            assert(s[j].path == s[i].path);
            assert(false);
        }
    }
}

/// A name is in a class's list exactly when some branch of that name
/// was observed with that class.
pub proof fn lemma_names_of_class_contains(s: Seq<ObsView>, c: BranchClass, n: Seq<u8>)
    ensures
        names_of_class(s, c).contains(n) <==> exists|i: int|
            0 <= i < s.len() && (#[trigger] s[i]).class() == c && s[i].name == n,
    decreases s.len(),
{
    if s.len() > 0 {
        let t = s.drop_last();
        lemma_names_of_class_contains(t, c, n);
        assert(forall|i: int| 0 <= i < t.len() ==> #[trigger] t[i] == s[i]);
        if names_of_class(s, c).contains(n) {
            if s.last().class() == c {
                let l = names_of_class(t, c).push(s.last().name);
                let j = choose|j: int| 0 <= j < l.len() && l[j] == n;
                if j < l.len() - 1 {
                    assert(names_of_class(t, c).contains(n));
                } else {
                    assert(s[s.len() - 1].class() == c && s[s.len() - 1].name == n);
                }
            } else {
                assert(names_of_class(t, c).contains(n));
            }
        }
        if exists|i: int| 0 <= i < s.len() && (#[trigger] s[i]).class() == c && s[i].name == n {
            let i = choose|i: int|
                0 <= i < s.len() && (#[trigger] s[i]).class() == c && s[i].name == n;
            if i < s.len() - 1 {
                assert(t[i].class() == c && t[i].name == n);
                assert(names_of_class(t, c).contains(n));
                let j = choose|j: int|
                    0 <= j < names_of_class(t, c).len() && names_of_class(t, c)[j] == n;
                assert(names_of_class(s, c)[j] == n);
            } else {
                assert(s.last().class() == c);
                assert(names_of_class(s, c).last() == n);
            }
        }
    }
}

/// With distinct branch names, no branch appears in both the untracked
/// and the unpushed list, and a fully pushed branch appears in neither.
pub proof fn lemma_branch_lists_exclusive(s: Seq<ObsView>)
    requires
        forall|i: int, j: int| 0 <= i < j < s.len() ==> (#[trigger] s[i]).name != (
        #[trigger] s[j]).name,
    ensures
        forall|n: Seq<u8>|
            !(#[trigger] names_of_class(s, BranchClass::Untracked).contains(n)
                && names_of_class(s, BranchClass::Unpushed).contains(n)),
        forall|i: int|
            0 <= i < s.len() && (#[trigger] s[i]).class() == BranchClass::Pushed
                ==> !names_of_class(s, BranchClass::Untracked).contains(s[i].name)
                && !names_of_class(s, BranchClass::Unpushed).contains(s[i].name),
{
    assert forall|n: Seq<u8>|
        !(#[trigger] names_of_class(s, BranchClass::Untracked).contains(n) && names_of_class(
            s,
            BranchClass::Unpushed,
        ).contains(n)) by {
        if names_of_class(s, BranchClass::Untracked).contains(n) && names_of_class(
            s,
            BranchClass::Unpushed,
        ).contains(n) {
            lemma_names_of_class_contains(s, BranchClass::Untracked, n);
            lemma_names_of_class_contains(s, BranchClass::Unpushed, n);
            let i = choose|i: int|
                0 <= i < s.len() && (#[trigger] s[i]).class() == BranchClass::Untracked
                    && s[i].name == n;
            let j = choose|j: int|
                0 <= j < s.len() && (#[trigger] s[j]).class() == BranchClass::Unpushed
                    && s[j].name == n;
            assert(i != j);
            assert(false);
        }
    }
    assert forall|i: int|
        0 <= i < s.len() && (#[trigger] s[i]).class() == BranchClass::Pushed
        implies !names_of_class(s, BranchClass::Untracked).contains(s[i].name)
        && !names_of_class(s, BranchClass::Unpushed).contains(s[i].name) by {
        lemma_names_of_class_contains(s, BranchClass::Untracked, s[i].name);
        lemma_names_of_class_contains(s, BranchClass::Unpushed, s[i].name);
        if names_of_class(s, BranchClass::Untracked).contains(s[i].name) {
            let j = choose|j: int|
                0 <= j < s.len() && (#[trigger] s[j]).class() == BranchClass::Untracked
                    && s[j].name == s[i].name;
            assert(i != j);
            assert(false);
        }
        if names_of_class(s, BranchClass::Unpushed).contains(s[i].name) {
            let j = choose|j: int|
                0 <= j < s.len() && (#[trigger] s[j]).class() == BranchClass::Unpushed
                    && s[j].name == s[i].name;
            assert(i != j);
            assert(false);
        }
    }
}

} // verus!
