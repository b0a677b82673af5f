//! Rendering the aggregated report as plain text.
//!
//! Clean repositories come first, one line each with the display name
//! (the final path component). Every non-clean repository follows as a
//! block: a header line with the display name, then one indented line
//! per dirty indication, per untracked branch and per unpushed branch,
//! in that order. The rendered bytes are a function of the report value
//! alone.

use vstd::prelude::*;

use crate::status::{ChangeKind, ItemView};
use crate::report::{OutcomeView, Report, ReportView, ScanOutcome};

verus! {

/// The path separator that splits a path into components.
pub open spec fn is_sep(b: u8) -> bool {
    b == 47
}

/// The display name of a path: everything after the last separator.
pub open spec fn spec_base_name(p: Seq<u8>) -> Seq<u8>
    decreases p.len(),
{
    if p.len() == 0 {
        p
    } else if is_sep(p.last()) {
        Seq::empty()
    } else {
        spec_base_name(p.drop_last()).push(p.last())
    }
}

/// Extracts the display name of a path.
pub fn base_name(p: &Vec<u8>) -> (r: Vec<u8>)
    ensures
        r@ == spec_base_name(p@),
{
    if p.len() == 0 {
        let out: Vec<u8> = Vec::new();
        proof {
            assert(out@ =~= spec_base_name(p@));
        }
        return out;
    }
    let mut cut: usize = p.len();
    proof {
        assert(p@.take(cut as int) =~= p@);
        assert(p@.skip(cut as int) =~= Seq::<u8>::empty());
        assert(spec_base_name(p@) =~= spec_base_name(p@.take(cut as int)) + p@.skip(cut as int));
    }
    while cut > 0
        invariant_except_break
            0 < cut <= p.len(),
            spec_base_name(p@) == spec_base_name(p@.take(cut as int)) + p@.skip(cut as int),
        ensures
            cut <= p.len(),
            spec_base_name(p@) == p@.skip(cut as int),
        decreases cut,
    {
        if p[cut - 1] == 47 {
            proof {
                assert(p@.take(cut as int).last() == p@[cut - 1]);
                assert(spec_base_name(p@.take(cut as int)) =~= Seq::<u8>::empty());
                assert(spec_base_name(p@) =~= p@.skip(cut as int));
            }
            break ;
        }
        proof {
            let t = p@.take(cut as int);
            assert(t.last() == p@[cut - 1]);
            assert(!is_sep(t.last()));
            assert(t.drop_last() =~= p@.take(cut as int - 1));
            assert(spec_base_name(t) == spec_base_name(p@.take(cut as int - 1)).push(
                p@[cut - 1],
            ));
            assert(spec_base_name(p@.take(cut as int - 1)).push(p@[cut - 1]) + p@.skip(cut as int)
                =~= spec_base_name(p@.take(cut as int - 1)) + p@.skip(cut as int - 1));
        }
        cut = cut - 1;
        if cut == 0 {
            proof {
                assert(p@.take(0) =~= Seq::<u8>::empty());
                assert(spec_base_name(p@) =~= p@.skip(0));
            }
            break ;
        }
    }
    let mut out: Vec<u8> = Vec::new();
    let mut j: usize = cut;
    proof {
        assert(out@ =~= p@.subrange(cut as int, cut as int));
    }
    while j < p.len()
        invariant
            cut <= j <= p.len(),
            out@ == p@.subrange(cut as int, j as int),
        decreases p.len() - j,
    {
        out.push(p[j]);
        j = j + 1;
        proof {
            assert(out@ =~= p@.subrange(cut as int, j as int));
        }
    }
    proof {
        assert(p@.subrange(cut as int, p@.len() as int) =~= p@.skip(cut as int));
    }
    out
}

/// The single-letter code of a change kind; `?` for an unsummarized
/// change.
pub open spec fn kind_code(k: ChangeKind) -> u8 {
    match k {
        ChangeKind::Unknown => 63,
        ChangeKind::Removed => 68,
        ChangeKind::Added => 65,
        ChangeKind::Modified => 77,
        ChangeKind::TypeChange => 84,
        ChangeKind::Renamed => 82,
        ChangeKind::Copied => 67,
        ChangeKind::IntentToAdd => 65,
        ChangeKind::Conflict => 88,
    }
}

/// Executable counterpart of `kind_code`.
pub fn kind_code_ix(k: ChangeKind) -> (r: u8)
    ensures
        r == kind_code(k),
{
    match k {
        ChangeKind::Unknown => 63,
        ChangeKind::Removed => 68,
        ChangeKind::Added => 65,
        ChangeKind::Modified => 77,
        ChangeKind::TypeChange => 84,
        ChangeKind::Renamed => 82,
        ChangeKind::Copied => 67,
        ChangeKind::IntentToAdd => 65,
        ChangeKind::Conflict => 88,
    }
}

/// The `UNTRACKED` tag.
pub open spec fn untracked_tag() -> Seq<u8> {
    seq![85u8, 78u8, 84u8, 82u8, 65u8, 67u8, 75u8, 69u8, 68u8]
}

/// The `UNPUSHED` tag.
pub open spec fn unpushed_tag() -> Seq<u8> {
    seq![85u8, 78u8, 80u8, 85u8, 83u8, 72u8, 69u8, 68u8]
}

/// The `DIRTY` marker for a repository with no commits yet.
pub open spec fn dirty_tag() -> Seq<u8> {
    seq![68u8, 73u8, 82u8, 84u8, 89u8]
}

/// One line per clean repository: display name only.
pub open spec fn render_clean(s: Seq<Seq<u8>>) -> Seq<u8>
    decreases s.len(),
{
    if s.len() == 0 {
        Seq::empty()
    } else {
        render_clean(s.drop_last()) + spec_base_name(s.last()) + seq![10u8]
    }
}

/// One indented line per itemized change: code, space, path.
pub open spec fn render_item(it: ItemView) -> Seq<u8> {
    seq![9u8, kind_code(it.kind), 32u8] + it.path + seq![10u8]
}

pub open spec fn render_items(s: Seq<ItemView>) -> Seq<u8>
    decreases s.len(),
{
    if s.len() == 0 {
        Seq::empty()
    } else {
        render_items(s.drop_last()) + render_item(s.last())
    }
}

/// One indented line per branch: tag, space, branch name.
pub open spec fn render_name_line(tag: Seq<u8>, name: Seq<u8>) -> Seq<u8> {
    seq![9u8] + tag + seq![32u8] + name + seq![10u8]
}

pub open spec fn render_names(tag: Seq<u8>, s: Seq<Seq<u8>>) -> Seq<u8>
    decreases s.len(),
{
    if s.len() == 0 {
        Seq::empty()
    } else {
        render_names(tag, s.drop_last()) + render_name_line(tag, s.last())
    }
}

/// The block of one non-clean repository: header, dirty indications,
/// untracked branches, unpushed branches.
pub open spec fn render_block(o: OutcomeView) -> Seq<u8> {
    spec_base_name(o.path) + seq![10u8] + (if o.status.no_commits {
        seq![9u8] + dirty_tag() + seq![10u8]
    } else {
        Seq::<u8>::empty()
    }) + render_items(o.status.dirty) + render_names(untracked_tag(), o.status.untracked)
        + render_names(unpushed_tag(), o.status.unpushed)
}

pub open spec fn render_blocks(s: Seq<OutcomeView>) -> Seq<u8>
    decreases s.len(),
{
    if s.len() == 0 {
        Seq::empty()
    } else {
        render_blocks(s.drop_last()) + render_block(s.last())
    }
}

/// The whole report: clean lines first, then one block per non-clean
/// repository.
pub open spec fn render_report(r: ReportView) -> Seq<u8> {
    render_clean(r.clean) + render_blocks(r.dirty)
}

/// Appends `s` to `out`.
fn push_all(out: &mut Vec<u8>, s: &Vec<u8>)
    ensures
        final(out)@ == old(out)@ + s@,
{
    let mut j: usize = 0;
    proof {
        assert(out@ =~= old(out)@ + s@.take(0));
    }
    while j < s.len()
        invariant
            j <= s.len(),
            out@ == old(out)@ + s@.take(j as int),
        decreases s.len() - j,
    {
        out.push(s[j]);
        j = j + 1;
        proof {
            assert(out@ =~= old(out)@ + s@.take(j as int));
        }
    }
    proof {
        assert(s@.take(s@.len() as int) =~= s@);
    }
}

/// Appends one branch line: tab, tag, space, name, newline.
fn push_name_line(out: &mut Vec<u8>, tag: &Vec<u8>, name: &Vec<u8>)
    ensures
        final(out)@ == old(out)@ + render_name_line(tag@, name@),
{
    out.push(9);
    push_all(out, tag);
    out.push(32);
    push_all(out, name);
    out.push(10);
    proof {
        assert(out@ =~= old(out)@ + render_name_line(tag@, name@));
    }
}

/// Builds the `UNTRACKED` tag.
fn tag_untracked() -> (r: Vec<u8>)
    ensures
        r@ == untracked_tag(),
{
    let mut v: Vec<u8> = Vec::new();
    v.push(85);
    v.push(78);
    v.push(84);
    v.push(82);
    v.push(65);
    v.push(67);
    v.push(75);
    v.push(69);
    v.push(68);
    proof {
        assert(v@ =~= untracked_tag());
    }
    v
}

/// Builds the `UNPUSHED` tag.
fn tag_unpushed() -> (r: Vec<u8>)
    ensures
        r@ == unpushed_tag(),
{
    let mut v: Vec<u8> = Vec::new();
    v.push(85);
    v.push(78);
    v.push(80);
    v.push(85);
    v.push(83);
    v.push(72);
    v.push(69);
    v.push(68);
    proof {
        assert(v@ =~= unpushed_tag());
    }
    v
}

/// Appends the branch lines of one list under the given tag.
fn push_names(out: &mut Vec<u8>, tag: &Vec<u8>, names: &Vec<Vec<u8>>)
    ensures
        final(out)@ == old(out)@ + render_names(tag@, names.deep_view()),
{
    let ghost nv = names.deep_view();
    let mut j: usize = 0;
    proof {
        assert(render_names(tag@, nv.take(0)) =~= Seq::<u8>::empty());
        assert(out@ =~= old(out)@ + render_names(tag@, nv.take(0)));
    }
    while j < names.len()
        invariant
            j <= names.len(),
            nv == names.deep_view(),
            out@ == old(out)@ + render_names(tag@, nv.take(j as int)),
        decreases names.len() - j,
    {
        let ghost next = nv.take(j as int + 1);
        proof {
            assert(next.drop_last() =~= nv.take(j as int));
            assert(next.last() == nv[j as int]);
            assert(nv[j as int] == names@[j as int]@);
        }
        push_name_line(out, tag, &names[j]);
        j = j + 1;
        proof {
            assert(out@ =~= old(out)@ + render_names(tag@, nv.take(j as int)));
        }
    }
    proof {
        assert(nv.take(names@.len() as int) =~= nv);
    }
}

/// Appends the block of one non-clean repository.
fn push_block(out: &mut Vec<u8>, o: &ScanOutcome)
    ensures
        final(out)@ == old(out)@ + render_block(o.deep_view()),
{
    let ghost ov = o.deep_view();
    let bn = base_name(&o.path);
    push_all(out, &bn);
    out.push(10);
    if o.status.no_commits {
        out.push(9);
        out.push(68);
        out.push(73);
        out.push(82);
        out.push(84);
        out.push(89);
        out.push(10);
    }
    proof {
        if ov.status.no_commits {
            assert(out@ =~= old(out)@ + (spec_base_name(ov.path) + seq![10u8] + (seq![9u8]
                + dirty_tag() + seq![10u8])));
        } else {
            assert(out@ =~= old(out)@ + (spec_base_name(ov.path) + seq![10u8]));
        }
    }
    let ghost mark = out@;
    let ghost dv = o.status.dirty.deep_view();
    let mut j: usize = 0;
    proof {
        assert(render_items(dv.take(0)) =~= Seq::<u8>::empty());
        assert(out@ =~= mark + render_items(dv.take(0)));
    }
    while j < o.status.dirty.len()
        invariant
            j <= o.status.dirty.len(),
            dv == o.status.dirty.deep_view(),
            out@ == mark + render_items(dv.take(j as int)),
        decreases o.status.dirty.len() - j,
    {
        let ghost next = dv.take(j as int + 1);
        proof {
            assert(next.drop_last() =~= dv.take(j as int));
            assert(next.last() == dv[j as int]);
            assert(dv[j as int] == o.status.dirty@[j as int].deep_view());
        }
        let it = &o.status.dirty[j];
        out.push(9);
        out.push(kind_code_ix(it.kind));
        out.push(32);
        push_all(out, &it.path);
        out.push(10);
        j = j + 1;
        proof {
            assert(out@ =~= mark + render_items(dv.take(j as int)));
        }
    }
    proof {
        assert(dv.take(o.status.dirty@.len() as int) =~= dv);
    }
    let tag_u = tag_untracked();
    push_names(out, &tag_u, &o.status.untracked_branches);
    let tag_p = tag_unpushed();
    push_names(out, &tag_p, &o.status.unpushed_branches);
    proof {
        assert(out@ =~= old(out)@ + render_block(ov));
    }
}

/// Renders the whole report. The bytes are a function of the report
/// value alone, so two runs that collect the same outcomes print the
/// same text.
pub fn render(report: &Report) -> (r: Vec<u8>)
    ensures
        r@ == render_report(report.deep_view()),
{
    let mut out: Vec<u8> = Vec::new();
    let ghost cv = report.clean.deep_view();
    let mut i: usize = 0;
    proof {
        assert(render_clean(cv.take(0)) =~= Seq::<u8>::empty());
        assert(out@ =~= render_clean(cv.take(0)));
    }
    while i < report.clean.len()
        invariant
            i <= report.clean.len(),
            cv == report.clean.deep_view(),
            out@ == render_clean(cv.take(i as int)),
        decreases report.clean.len() - i,
    {
        let ghost next = cv.take(i as int + 1);
        proof {
            assert(next.drop_last() =~= cv.take(i as int));
            assert(next.last() == cv[i as int]);
            assert(cv[i as int] == report.clean@[i as int]@);
        }
        let bn = base_name(&report.clean[i]);
        push_all(&mut out, &bn);
        out.push(10);
        i = i + 1;
        proof {
            assert(out@ =~= render_clean(cv.take(i as int)));
        }
    }
    proof {
        assert(cv.take(report.clean@.len() as int) =~= cv);
    }
    let ghost mark = out@;
    let ghost bv = report.dirty.deep_view();
    let mut k: usize = 0;
    proof {
        assert(render_blocks(bv.take(0)) =~= Seq::<u8>::empty());
        assert(out@ =~= mark + render_blocks(bv.take(0)));
    }
    while k < report.dirty.len()
        invariant
            k <= report.dirty.len(),
            bv == report.dirty.deep_view(),
            out@ == mark + render_blocks(bv.take(k as int)),
        decreases report.dirty.len() - k,
    {
        let ghost next = bv.take(k as int + 1);
        proof {
            assert(next.drop_last() =~= bv.take(k as int));
            assert(next.last() == bv[k as int]);
            assert(bv[k as int] == report.dirty@[k as int].deep_view());
        }
        push_block(&mut out, &report.dirty[k]);
        k = k + 1;
        proof {
            assert(out@ =~= mark + render_blocks(bv.take(k as int)));
        }
    }
    proof {
        assert(bv.take(report.dirty@.len() as int) =~= bv);
        assert(out@ =~= render_report(report.deep_view()));
    }
    out
}

} // verus!
