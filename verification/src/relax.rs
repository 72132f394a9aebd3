//! Relaxation engine.
//!
//! A fixed number of pairwise force-resolution passes over all projects:
//! overlapping project circles repel each other, and a project sitting in
//! a relation arrow's corridor is pushed off it.  Forces accumulate per
//! node and are applied in one damped step; a move is committed only if
//! the node stays region-valid, retrying with each axis locked before
//! giving the move up.  The engine stops early once a pass moves nothing.
//!
//! The whole run is pinned to a spec model: [`forces_spec`] gives the
//! forces of one pass, [`relax_pass`] one full pass, and [`relax_iter`]
//! the fixed-point iteration, so [`relax`]'s result is a function of the
//! document alone.  Region validity is preserved for every node that had
//! it, and a settled document — every node region-valid, no pair too
//! close, no node in an arrow corridor — is a fixed point.
//!
//! One margin note: the force pass skips segments of squared length below
//! two, as the drawing layer's relaxation always has, while the clearance
//! predicate [`crate::region::arrow_clear`] (and with it [`settled`])
//! counts unit-length arrows too; a settled document is therefore clear of
//! even those, which the force pass would ignore.

use crate::geom::{
    clamp, clamp_i64, dist2, dist2_i64, imax, isqrt, mag, muldiv, muldiv_i64, sqrt_floor,
    ARROW_GAP, COORD_LIMIT, FORCE_CAP, MEMBER_MARGIN, PROJECT_GAP,
};
use crate::models::{find_project_index, AppData, DocView, FieldView, ProjectView};
use crate::region::{any_overlap, arrow_clear, region_ok, region_ok_at, region_valid};
use vstd::prelude::*;

verus! {

/// The same projects in the same order, only positions possibly changed.
pub open spec fn same_projects_but_positions(a: Seq<ProjectView>, b: Seq<ProjectView>) -> bool {
    &&& a.len() == b.len()
    &&& forall|i: int|
        0 <= i < a.len() ==> (#[trigger] b[i]) == a[i].moved_to(b[i].x, b[i].y)
}

/// No force acts on any node: no pair of projects sits too close, and no
/// project lies in the corridor of an arrow it is not an endpoint of.
pub open spec fn forces_idle(doc: DocView) -> bool {
    &&& !any_overlap(doc.projects, PROJECT_GAP as int)
    &&& forall|i: int|
        0 <= i < doc.projects.len() ==> arrow_clear(
            doc,
            (#[trigger] doc.projects[i]).id,
            doc.projects[i].x,
            doc.projects[i].y,
            doc.projects[i].radius,
        )
}

/// A fully valid, fully spaced layout: every project region-valid and no
/// force acting anywhere.  Such a document is a fixed point of the
/// relaxation engine and of the validator.
pub open spec fn settled(doc: DocView) -> bool {
    &&& forall|i: int|
        0 <= i < doc.projects.len() ==> region_valid(doc.fields, #[trigger] doc.projects[i])
    &&& forces_idle(doc)
}

/// Integer views of an accumulated force vector.
pub open spec fn force_views(fv: Seq<(i64, i64)>) -> Seq<(int, int)> {
    fv.map_values(|f: (i64, i64)| (f.0 as int, f.1 as int))
}

/// No force on any of `n` nodes.
pub open spec fn zero_forces(n: nat) -> Seq<(int, int)> {
    Seq::new(n, |i: int| (0int, 0int))
}

/// The repulsion the pair `(i, j)` adds to the force vector: when the two
/// circles sit closer than their radii plus the gap, half the overlap, in
/// thousandths, pushes each endpoint away from the other, saturating at
/// `FORCE_CAP`.
pub open spec fn pair_step(
    projects: Seq<ProjectView>,
    fv: Seq<(int, int)>,
    i: int,
    j: int,
) -> Seq<(int, int)> {
    let a = projects[i];
    let b = projects[j];
    let s = a.radius + b.radius + PROJECT_GAP as int;
    let d2v = dist2(a.x, a.y, b.x, b.y);
    if d2v < s * s {
        let dist = imax(sqrt_floor(d2v), 1);
        let num = (s - dist) * 500;
        let fx = muldiv(b.x - a.x, num, dist);
        let fy = muldiv(b.y - a.y, num, dist);
        let fc = FORCE_CAP as int;
        let fv1 = fv.update(i, (clamp(fv[i].0 - fx, -fc, fc), clamp(fv[i].1 - fy, -fc, fc)));
        fv1.update(j, (clamp(fv1[j].0 + fx, -fc, fc), clamp(fv1[j].1 + fy, -fc, fc)))
    } else {
        fv
    }
}

/// Pair repulsions of `i` against every later project, from `j` on.
#[verifier::opaque]
pub open spec fn pair_inner(
    projects: Seq<ProjectView>,
    fv: Seq<(int, int)>,
    i: int,
    j: int,
) -> Seq<(int, int)>
    decreases projects.len() - j,
{
    if j >= projects.len() {
        fv
    } else {
        pair_inner(projects, pair_step(projects, fv, i, j), i, j + 1)
    }
}

/// One step of the inner pair fold.
pub proof fn lemma_pair_inner_unfold(
    projects: Seq<ProjectView>,
    fv: Seq<(int, int)>,
    i: int,
    j: int,
)
    requires
        j < projects.len(),
    ensures
        pair_inner(projects, fv, i, j) == pair_inner(
            projects,
            pair_step(projects, fv, i, j),
            i,
            j + 1,
        ),
{
    reveal_with_fuel(pair_inner, 2);
}

/// The inner pair fold is exhausted past the last project.
pub proof fn lemma_pair_inner_end(projects: Seq<ProjectView>, fv: Seq<(int, int)>, i: int, j: int)
    requires
        j >= projects.len(),
    ensures
        pair_inner(projects, fv, i, j) == fv,
{
    reveal_with_fuel(pair_inner, 2);
}

/// Pair repulsions of every pair, outer index from `i` on.
#[verifier::opaque]
pub open spec fn pair_outer(
    projects: Seq<ProjectView>,
    fv: Seq<(int, int)>,
    i: int,
) -> Seq<(int, int)>
    decreases projects.len() - i,
{
    if i >= projects.len() {
        fv
    } else {
        pair_outer(projects, pair_inner(projects, fv, i, i + 1), i + 1)
    }
}

/// One step of the outer pair fold.
pub proof fn lemma_pair_outer_unfold(projects: Seq<ProjectView>, fv: Seq<(int, int)>, i: int)
    requires
        i < projects.len(),
    ensures
        pair_outer(projects, fv, i) == pair_outer(
            projects,
            pair_inner(projects, fv, i, i + 1),
            i + 1,
        ),
{
    reveal_with_fuel(pair_outer, 2);
}

/// The outer pair fold is exhausted past the last project.
pub proof fn lemma_pair_outer_end(projects: Seq<ProjectView>, fv: Seq<(int, int)>, i: int)
    requires
        i >= projects.len(),
    ensures
        pair_outer(projects, fv, i) == fv,
{
    reveal_with_fuel(pair_outer, 2);
}

/// There is a project with this id.
pub open spec fn has_project(projects: Seq<ProjectView>, id: Seq<char>) -> bool {
    exists|i: int| 0 <= i < projects.len() && projects[i].id == id
}

/// Index of the project with this id (unique in a well-formed document).
pub open spec fn proj_idx(projects: Seq<ProjectView>, id: Seq<char>) -> int {
    choose|i: int| 0 <= i < projects.len() && projects[i].id == id
}

/// The push one arrow adds to the force on project `i`: when the circle
/// sits within its radius plus the arrow gap of the segment, three tenths
/// of the penetration push it off the nearest segment point.
pub open spec fn arrow_step(
    projects: Seq<ProjectView>,
    x1: int,
    y1: int,
    x2: int,
    y2: int,
    len2: int,
    fv: Seq<(int, int)>,
    i: int,
) -> Seq<(int, int)> {
    let p = projects[i];
    let thr = p.radius + ARROW_GAP as int;
    let dot = clamp((p.x - x1) * (x2 - x1) + (p.y - y1) * (y2 - y1), 0, len2);
    let nx = x1 + muldiv(x2 - x1, dot, len2);
    let ny = y1 + muldiv(y2 - y1, dot, len2);
    let d2n = dist2(p.x, p.y, nx, ny);
    if d2n < thr * thr {
        let dist = imax(sqrt_floor(d2n), 1);
        let num = (thr - dist) * 300;
        let fc = FORCE_CAP as int;
        fv.update(
            i,
            (
                clamp(fv[i].0 + muldiv(p.x - nx, num, dist), -fc, fc),
                clamp(fv[i].1 + muldiv(p.y - ny, num, dist), -fc, fc),
            ),
        )
    } else {
        fv
    }
}

/// One arrow's pushes on every project that is not one of its endpoints,
/// from `i` on.
#[verifier::opaque]
pub open spec fn arrow_inner(
    projects: Seq<ProjectView>,
    x1: int,
    y1: int,
    x2: int,
    y2: int,
    len2: int,
    fi: int,
    ti: int,
    fv: Seq<(int, int)>,
    i: int,
) -> Seq<(int, int)>
    decreases projects.len() - i,
{
    if i >= projects.len() {
        fv
    } else {
        let fv2 = if i != fi && i != ti {
            arrow_step(projects, x1, y1, x2, y2, len2, fv, i)
        } else {
            fv
        };
        arrow_inner(projects, x1, y1, x2, y2, len2, fi, ti, fv2, i + 1)
    }
}

/// One step of the per-arrow fold.
pub proof fn lemma_arrow_inner_unfold(
    projects: Seq<ProjectView>,
    x1: int,
    y1: int,
    x2: int,
    y2: int,
    len2: int,
    fi: int,
    ti: int,
    fv: Seq<(int, int)>,
    i: int,
)
    requires
        i < projects.len(),
    ensures
        arrow_inner(projects, x1, y1, x2, y2, len2, fi, ti, fv, i) == ({
            let fv2 = if i != fi && i != ti {
                arrow_step(projects, x1, y1, x2, y2, len2, fv, i)
            } else {
                fv
            };
            arrow_inner(projects, x1, y1, x2, y2, len2, fi, ti, fv2, i + 1)
        }),
{
    reveal_with_fuel(arrow_inner, 2);
}

/// The per-arrow fold is exhausted past the last project.
pub proof fn lemma_arrow_inner_end(
    projects: Seq<ProjectView>,
    x1: int,
    y1: int,
    x2: int,
    y2: int,
    len2: int,
    fi: int,
    ti: int,
    fv: Seq<(int, int)>,
    i: int,
)
    requires
        i >= projects.len(),
    ensures
        arrow_inner(projects, x1, y1, x2, y2, len2, fi, ti, fv, i) == fv,
{
    reveal_with_fuel(arrow_inner, 2);
}

/// Arrow pushes of every live relation from index `k` on; a relation with
/// a dangling endpoint, or one whose endpoints sit within one unit of
/// each other, adds nothing.
#[verifier::opaque]
pub open spec fn arrows_fold(doc: DocView, fv: Seq<(int, int)>, k: int) -> Seq<(int, int)>
    decreases doc.relations.len() - k,
{
    if k >= doc.relations.len() {
        fv
    } else {
        let r = doc.relations[k];
        let fv2 = if has_project(doc.projects, r.from_id) && has_project(doc.projects, r.to_id) {
            let a = doc.projects[proj_idx(doc.projects, r.from_id)];
            let b = doc.projects[proj_idx(doc.projects, r.to_id)];
            let len2 = dist2(a.x, a.y, b.x, b.y);
            if len2 > 1 {
                arrow_inner(
                    doc.projects,
                    a.x,
                    a.y,
                    b.x,
                    b.y,
                    len2,
                    proj_idx(doc.projects, r.from_id),
                    proj_idx(doc.projects, r.to_id),
                    fv,
                    0,
                )
            } else {
                fv
            }
        } else {
            fv
        };
        arrows_fold(doc, fv2, k + 1)
    }
}

/// One step of the relation fold.
pub proof fn lemma_arrows_fold_unfold(doc: DocView, fv: Seq<(int, int)>, k: int)
    requires
        k < doc.relations.len(),
    ensures
        arrows_fold(doc, fv, k) == ({
            let r = doc.relations[k];
            let fv2 = if has_project(doc.projects, r.from_id) && has_project(
                doc.projects,
                r.to_id,
            ) {
                let a = doc.projects[proj_idx(doc.projects, r.from_id)];
                let b = doc.projects[proj_idx(doc.projects, r.to_id)];
                let len2 = dist2(a.x, a.y, b.x, b.y);
                if len2 > 1 {
                    arrow_inner(
                        doc.projects,
                        a.x,
                        a.y,
                        b.x,
                        b.y,
                        len2,
                        proj_idx(doc.projects, r.from_id),
                        proj_idx(doc.projects, r.to_id),
                        fv,
                        0,
                    )
                } else {
                    fv
                }
            } else {
                fv
            };
            arrows_fold(doc, fv2, k + 1)
        }),
{
    reveal_with_fuel(arrows_fold, 2);
}

/// The relation fold is exhausted past the last relation.
pub proof fn lemma_arrows_fold_end(doc: DocView, fv: Seq<(int, int)>, k: int)
    requires
        k >= doc.relations.len(),
    ensures
        arrows_fold(doc, fv, k) == fv,
{
    reveal_with_fuel(arrows_fold, 2);
}

/// The accumulated force on every node for one relaxation pass: pair
/// repulsions of all project pairs, then the arrow pushes of every live
/// relation.
pub open spec fn forces_spec(doc: DocView) -> Seq<(int, int)> {
    arrows_fold(doc, pair_outer(doc.projects, zero_forces(doc.projects.len()), 0), 0)
}

/// One damped, region-checked commit: a node whose force exceeds the
/// tenth-of-a-unit threshold moves by eight tenths of it, to the first of
/// the full move, the x-only move and the y-only move that is
/// region-valid; if none is, the node stays for this pass.
pub open spec fn apply_step(
    fields: Seq<FieldView>,
    projects: Seq<ProjectView>,
    f: (int, int),
    i: int,
) -> (Seq<ProjectView>, bool) {
    let p = projects[i];
    if f.0 > 100 || f.0 < -100 || f.1 > 100 || f.1 < -100 {
        let cl = COORD_LIMIT as int;
        let nxp = clamp(p.x + muldiv(f.0, 8, 10000), -cl, cl);
        let nyp = clamp(p.y + muldiv(f.1, 8, 10000), -cl, cl);
        let m = MEMBER_MARGIN as int;
        if region_ok(fields, p.field_ids, nxp, nyp, p.radius, m) {
            (projects.update(i, p.moved_to(nxp, nyp)), true)
        } else if region_ok(fields, p.field_ids, nxp, p.y, p.radius, m) {
            (projects.update(i, p.moved_to(nxp, p.y)), true)
        } else if region_ok(fields, p.field_ids, p.x, nyp, p.radius, m) {
            (projects.update(i, p.moved_to(p.x, nyp)), true)
        } else {
            (projects, false)
        }
    } else {
        (projects, false)
    }
}

/// Commits of one pass from node `i` on; the flag says whether any node
/// moved.
#[verifier::opaque]
pub open spec fn apply_fold(
    fields: Seq<FieldView>,
    projects: Seq<ProjectView>,
    fv: Seq<(int, int)>,
    i: int,
) -> (Seq<ProjectView>, bool)
    decreases fv.len() - i,
{
    if i >= fv.len() {
        (projects, false)
    } else {
        let s = apply_step(fields, projects, fv[i], i);
        let rest = apply_fold(fields, s.0, fv, i + 1);
        (rest.0, s.1 || rest.1)
    }
}

/// One step of the commit fold.
pub proof fn lemma_apply_fold_unfold(
    fields: Seq<FieldView>,
    projects: Seq<ProjectView>,
    fv: Seq<(int, int)>,
    i: int,
)
    requires
        i < fv.len(),
    ensures
        apply_fold(fields, projects, fv, i) == ({
            let s = apply_step(fields, projects, fv[i], i);
            let rest = apply_fold(fields, s.0, fv, i + 1);
            (rest.0, s.1 || rest.1)
        }),
{
    reveal_with_fuel(apply_fold, 2);
}

/// The commit fold is exhausted past the last project.
pub proof fn lemma_apply_fold_end(
    fields: Seq<FieldView>,
    projects: Seq<ProjectView>,
    fv: Seq<(int, int)>,
    i: int,
)
    requires
        i >= fv.len(),
    ensures
        apply_fold(fields, projects, fv, i) == (projects, false),
{
    reveal_with_fuel(apply_fold, 2);
}

/// One full relaxation pass: accumulate the forces, then commit the
/// damped moves.
pub open spec fn relax_pass(doc: DocView) -> (Seq<ProjectView>, bool) {
    apply_fold(doc.fields, doc.projects, forces_spec(doc), 0)
}

/// Up to `fuel` relaxation passes, stopping at the first pass that moves
/// nothing.
#[verifier::opaque]
pub open spec fn relax_iter(doc: DocView, fuel: nat) -> Seq<ProjectView>
    decreases fuel,
{
    if fuel == 0 {
        doc.projects
    } else {
        let s = relax_pass(doc);
        if !s.1 {
            s.0
        } else {
            relax_iter(DocView { projects: s.0, ..doc }, (fuel - 1) as nat)
        }
    }
}

/// One step of the pass iteration.
pub proof fn lemma_relax_iter_unfold(doc: DocView, fuel: nat)
    requires
        fuel >= 1,
    ensures
        relax_iter(doc, fuel) == ({
            let s = relax_pass(doc);
            if !s.1 {
                s.0
            } else {
                relax_iter(DocView { projects: s.0, ..doc }, (fuel - 1) as nat)
            }
        }),
{
    reveal_with_fuel(relax_iter, 2);
}

/// The pass iteration stops when the budget runs out.
pub proof fn lemma_relax_iter_end(doc: DocView)
    ensures
        relax_iter(doc, 0) == doc.projects,
{
    reveal_with_fuel(relax_iter, 1);
}

/// Add the pair `(i, j)`'s repulsion to the force vector.
fn pair_step_exec(doc: &AppData, fv: &mut Vec<(i64, i64)>, i: usize, j: usize)
    requires
        doc@.wf(),
        i < j < doc.projects.len(),
        old(fv)@.len() == doc@.projects.len(),
        forall|k: int|
            0 <= k < old(fv)@.len() ==> mag((#[trigger] old(fv)@[k]).0 as int) <= FORCE_CAP as int
                && mag(old(fv)@[k].1 as int) <= FORCE_CAP as int,
    ensures
        force_views(final(fv)@) == pair_step(
            doc@.projects,
            force_views(old(fv)@),
            i as int,
            j as int,
        ),
        final(fv)@.len() == old(fv)@.len(),
        forall|k: int|
            0 <= k < final(fv)@.len() ==> mag((#[trigger] final(fv)@[k]).0 as int)
                <= FORCE_CAP as int && mag(final(fv)@[k].1 as int) <= FORCE_CAP as int,
        !any_overlap(doc@.projects, PROJECT_GAP as int) ==> final(fv)@ == old(fv)@,
{
    let p1 = &doc.projects[i];
    let p2 = &doc.projects[j];
    assert(doc@.projects[i as int] == p1@ && doc@.projects[i as int].wf());
    assert(doc@.projects[j as int] == p2@ && doc@.projects[j as int].wf());
    let s = p1.radius + p2.radius + PROJECT_GAP;
    let d2 = dist2_i64(p1.position.0, p1.position.1, p2.position.0, p2.position.1);
    proof {
        assert(0 <= (s as int) * (s as int) <= 9_000_000_000_000) by (nonlinear_arith)
            requires
                0 <= s as int <= 3_000_000,
        ;
    }
    if d2 < s * s {
        proof {
            assert(any_overlap(doc@.projects, PROJECT_GAP as int));
        }
        let dist0 = isqrt(d2);
        proof {
            assert(dist0 < s) by (nonlinear_arith)
                requires
                    (dist0 as int) * (dist0 as int) <= d2 as int,
                    (d2 as int) < (s as int) * (s as int),
                    dist0 >= 0,
                    s >= 0,
            ;
        }
        let dist = if dist0 < 1 {
            1
        } else {
            dist0
        };
        let overlap = s - dist;
        let num = overlap * 500;
        let dxv = p2.position.0 - p1.position.0;
        let dyv = p2.position.1 - p1.position.1;
        proof {
            lemma_force_term(dxv as int, num as int, dist as int, 20_000_000, 1_100_000_000);
            lemma_force_term(dyv as int, num as int, dist as int, 20_000_000, 1_100_000_000);
        }
        let fx = muldiv_i64(dxv, num, dist);
        let fy = muldiv_i64(dyv, num, dist);
        let fi0 = fv[i];
        fv[i] = (
            clamp_i64(fi0.0 - fx, -FORCE_CAP, FORCE_CAP),
            clamp_i64(fi0.1 - fy, -FORCE_CAP, FORCE_CAP),
        );
        let fj0 = fv[j];
        fv[j] = (
            clamp_i64(fj0.0 + fx, -FORCE_CAP, FORCE_CAP),
            clamp_i64(fj0.1 + fy, -FORCE_CAP, FORCE_CAP),
        );
        proof {
            assert(force_views(fv@) =~= pair_step(
                doc@.projects,
                force_views(old(fv)@),
                i as int,
                j as int,
            ));
        }
    } else {
        proof {
            assert(force_views(fv@) =~= pair_step(
                doc@.projects,
                force_views(old(fv)@),
                i as int,
                j as int,
            ));
        }
    }
}

/// Add one arrow's push on project `i` to the force vector.
fn arrow_step_exec(
    doc: &AppData,
    fv: &mut Vec<(i64, i64)>,
    x1: i64,
    y1: i64,
    x2: i64,
    y2: i64,
    len2: i64,
    i: usize,
) -> (pushed: bool)
    requires
        doc@.wf(),
        i < doc.projects.len(),
        old(fv)@.len() == doc@.projects.len(),
        mag(x1 as int) <= COORD_LIMIT as int,
        mag(y1 as int) <= COORD_LIMIT as int,
        mag(x2 as int) <= COORD_LIMIT as int,
        mag(y2 as int) <= COORD_LIMIT as int,
        len2 as int == dist2(x1 as int, y1 as int, x2 as int, y2 as int),
        len2 > 1,
        forall|k: int|
            0 <= k < old(fv)@.len() ==> mag((#[trigger] old(fv)@[k]).0 as int) <= FORCE_CAP as int
                && mag(old(fv)@[k].1 as int) <= FORCE_CAP as int,
    ensures
        force_views(final(fv)@) == arrow_step(
            doc@.projects,
            x1 as int,
            y1 as int,
            x2 as int,
            y2 as int,
            len2 as int,
            force_views(old(fv)@),
            i as int,
        ),
        final(fv)@.len() == old(fv)@.len(),
        forall|k: int|
            0 <= k < final(fv)@.len() ==> mag((#[trigger] final(fv)@[k]).0 as int)
                <= FORCE_CAP as int && mag(final(fv)@[k].1 as int) <= FORCE_CAP as int,
        pushed ==> crate::geom::near_segment(
            doc@.projects[i as int].x,
            doc@.projects[i as int].y,
            x1 as int,
            y1 as int,
            x2 as int,
            y2 as int,
            doc@.projects[i as int].radius + ARROW_GAP as int,
        ),
        !pushed ==> final(fv)@ == old(fv)@,
{
    let p = &doc.projects[i];
    assert(doc@.projects[i as int] == p@ && doc@.projects[i as int].wf());
    let thr = p.radius + ARROW_GAP;
    let ex = x2 - x1;
    let ey = y2 - y1;
    let ux = p.position.0 - x1;
    let uy = p.position.1 - y1;
    proof {
        assert(-800_000_000_000_000 <= (ux as int) * (ex as int) <= 800_000_000_000_000
            && -800_000_000_000_000 <= (uy as int) * (ey as int) <= 800_000_000_000_000)
            by (nonlinear_arith)
            requires
                -20_000_000 <= ux as int <= 20_000_000,
                -20_000_000 <= uy as int <= 20_000_000,
                -20_000_000 <= ex as int <= 20_000_000,
                -20_000_000 <= ey as int <= 20_000_000,
        ;
    }
    let dot = ux * ex + uy * ey;
    let t = clamp_i64(dot, 0, len2);
    proof {
        crate::geom::lemma_muldiv_shrink(ex as int, t as int, len2 as int);
        crate::geom::lemma_muldiv_shrink(ey as int, t as int, len2 as int);
    }
    let nx = x1 + muldiv_i64(ex, t, len2);
    let ny = y1 + muldiv_i64(ey, t, len2);
    let d2n = dist2_i64(p.position.0, p.position.1, nx, ny);
    proof {
        assert(0 <= (thr as int) * (thr as int) <= 4_000_000_000_000) by (nonlinear_arith)
            requires
                0 <= thr as int <= 2_000_000,
        ;
    }
    if d2n < thr * thr {
        let dist0 = isqrt(d2n);
        proof {
            assert(dist0 < thr) by (nonlinear_arith)
                requires
                    (dist0 as int) * (dist0 as int) <= d2n as int,
                    (d2n as int) < (thr as int) * (thr as int),
                    dist0 >= 0,
                    thr >= 0,
            ;
        }
        let dist = if dist0 < 1 {
            1
        } else {
            dist0
        };
        let overlap = thr - dist;
        let num = overlap * 300;
        let dxn = p.position.0 - nx;
        let dyn0 = p.position.1 - ny;
        proof {
            lemma_force_term(dxn as int, num as int, dist as int, 40_000_000, 610_000_000);
            lemma_force_term(dyn0 as int, num as int, dist as int, 40_000_000, 610_000_000);
        }
        let fx = muldiv_i64(dxn, num, dist);
        let fy = muldiv_i64(dyn0, num, dist);
        let f0 = fv[i];
        fv[i] = (
            clamp_i64(f0.0 + fx, -FORCE_CAP, FORCE_CAP),
            clamp_i64(f0.1 + fy, -FORCE_CAP, FORCE_CAP),
        );
        proof {
            assert(force_views(fv@) =~= arrow_step(
                doc@.projects,
                x1 as int,
                y1 as int,
                x2 as int,
                y2 as int,
                len2 as int,
                force_views(old(fv)@),
                i as int,
            ));
        }
        true
    } else {
        proof {
            assert(force_views(fv@) =~= arrow_step(
                doc@.projects,
                x1 as int,
                y1 as int,
                x2 as int,
                y2 as int,
                len2 as int,
                force_views(old(fv)@),
                i as int,
            ));
        }
        false
    }
}

/// One force-accumulation pass: the repulsion each project feels from
/// overlapping projects and from nearby relation arrows, in thousandths
/// of a unit, saturating at `FORCE_CAP`; exactly [`forces_spec`].
#[verifier::rlimit(60)]
fn compute_forces(doc: &AppData) -> (fv: Vec<(i64, i64)>)
    requires
        doc@.wf(),
    ensures
        fv@.len() == doc@.projects.len(),
        force_views(fv@) == forces_spec(doc@),
        forall|i: int|
            0 <= i < fv@.len() ==> mag((#[trigger] fv@[i]).0 as int) <= FORCE_CAP as int && mag(
                fv@[i].1 as int,
            ) <= FORCE_CAP as int,
        forces_idle(doc@) ==> forall|i: int|
            0 <= i < fv@.len() ==> (#[trigger] fv@[i]) == (0i64, 0i64),
{
    let n = doc.projects.len();
    let mut fv: Vec<(i64, i64)> = Vec::new();
    for i in 0..n
        invariant
            fv@.len() == i,
            forall|k: int| 0 <= k < i ==> (#[trigger] fv@[k]) == (0i64, 0i64),
    {
        fv.push((0, 0));
    }
    proof {
        assert(force_views(fv@) =~= zero_forces(doc@.projects.len()));
    }
    let ghost zf = force_views(fv@);
    for i in 0..n
        invariant
            doc@.wf(),
            n == doc.projects.len(),
            fv@.len() == n,
            zf == zero_forces(doc@.projects.len()),
            pair_outer(doc@.projects, zf, 0) == pair_outer(
                doc@.projects,
                force_views(fv@),
                i as int,
            ),
            forall|k: int|
                0 <= k < n ==> mag((#[trigger] fv@[k]).0 as int) <= FORCE_CAP as int && mag(
                    fv@[k].1 as int,
                ) <= FORCE_CAP as int,
            !any_overlap(doc@.projects, PROJECT_GAP as int) ==> forall|k: int|
                0 <= k < n ==> (#[trigger] fv@[k]) == (0i64, 0i64),
    {
        proof {
            lemma_pair_outer_unfold(doc@.projects, force_views(fv@), i as int);
        }
        let ghost entry = force_views(fv@);
        for j in (i + 1)..n
            invariant
                doc@.wf(),
                n == doc.projects.len(),
                i < n,
                fv@.len() == n,
                pair_inner(doc@.projects, entry, i as int, i as int + 1) == pair_inner(
                    doc@.projects,
                    force_views(fv@),
                    i as int,
                    j as int,
                ),
                forall|k: int|
                    0 <= k < n ==> mag((#[trigger] fv@[k]).0 as int) <= FORCE_CAP as int && mag(
                        fv@[k].1 as int,
                    ) <= FORCE_CAP as int,
                !any_overlap(doc@.projects, PROJECT_GAP as int) ==> forall|k: int|
                    0 <= k < n ==> (#[trigger] fv@[k]) == (0i64, 0i64),
        {
            proof {
                lemma_pair_inner_unfold(doc@.projects, force_views(fv@), i as int, j as int);
            }
            pair_step_exec(doc, &mut fv, i, j);
        }
        proof {
            lemma_pair_inner_end(doc@.projects, force_views(fv@), i as int, n as int);
        }
    }
    proof {
        lemma_pair_outer_end(doc@.projects, force_views(fv@), n as int);
    }
    let ghost paired = force_views(fv@);
    let rn = doc.relations.len();
    for k in 0..rn
        invariant
            doc@.wf(),
            n == doc.projects.len(),
            rn == doc.relations.len(),
            fv@.len() == n,
            arrows_fold(doc@, paired, 0) == arrows_fold(doc@, force_views(fv@), k as int),
            forall|k0: int|
                0 <= k0 < n ==> mag((#[trigger] fv@[k0]).0 as int) <= FORCE_CAP as int && mag(
                    fv@[k0].1 as int,
                ) <= FORCE_CAP as int,
            forces_idle(doc@) ==> forall|k0: int|
                0 <= k0 < n ==> (#[trigger] fv@[k0]) == (0i64, 0i64),
    {
        proof {
            lemma_arrows_fold_unfold(doc@, force_views(fv@), k as int);
        }
        let rel = &doc.relations[k];
        assert(doc@.relations[k as int] == rel@);
        let fi = find_project_index(&doc.projects, &rel.from_id);
        let ti = find_project_index(&doc.projects, &rel.to_id);
        match (fi, ti) {
            (Some(fi), Some(ti)) => {
                proof {
                    assert(has_project(doc@.projects, rel@.from_id));
                    assert(has_project(doc@.projects, rel@.to_id));
                    let c = proj_idx(doc@.projects, rel@.from_id);
                    if c != fi as int {
                        assert(doc@.projects[c].id == doc@.projects[fi as int].id);
                    }
                    let c2 = proj_idx(doc@.projects, rel@.to_id);
                    if c2 != ti as int {
                        assert(doc@.projects[c2].id == doc@.projects[ti as int].id);
                    }
                }
                let fp = &doc.projects[fi];
                let tp = &doc.projects[ti];
                assert(doc@.projects[fi as int] == fp@ && doc@.projects[fi as int].wf());
                assert(doc@.projects[ti as int] == tp@ && doc@.projects[ti as int].wf());
                let x1 = fp.position.0;
                let y1 = fp.position.1;
                let x2 = tp.position.0;
                let y2 = tp.position.1;
                let len2 = dist2_i64(x1, y1, x2, y2);
                if len2 > 1 {
                    let ghost fentry = force_views(fv@);
                    for i in 0..n
                        invariant
                            doc@.wf(),
                            n == doc.projects.len(),
                            rn == doc.relations.len(),
                            k < rn,
                            fi < n,
                            ti < n,
                            fv@.len() == n,
                            doc@.relations[k as int].from_id == doc@.projects[fi as int].id,
                            doc@.relations[k as int].to_id == doc@.projects[ti as int].id,
                            x1 as int == doc@.projects[fi as int].x,
                            y1 as int == doc@.projects[fi as int].y,
                            x2 as int == doc@.projects[ti as int].x,
                            y2 as int == doc@.projects[ti as int].y,
                            mag(x1 as int) <= COORD_LIMIT as int,
                            mag(y1 as int) <= COORD_LIMIT as int,
                            mag(x2 as int) <= COORD_LIMIT as int,
                            mag(y2 as int) <= COORD_LIMIT as int,
                            len2 as int == dist2(x1 as int, y1 as int, x2 as int, y2 as int),
                            len2 > 1,
                            arrow_inner(
                                doc@.projects,
                                x1 as int,
                                y1 as int,
                                x2 as int,
                                y2 as int,
                                len2 as int,
                                fi as int,
                                ti as int,
                                fentry,
                                0,
                            ) == arrow_inner(
                                doc@.projects,
                                x1 as int,
                                y1 as int,
                                x2 as int,
                                y2 as int,
                                len2 as int,
                                fi as int,
                                ti as int,
                                force_views(fv@),
                                i as int,
                            ),
                            forall|k0: int|
                                0 <= k0 < n ==> mag((#[trigger] fv@[k0]).0 as int)
                                    <= FORCE_CAP as int && mag(fv@[k0].1 as int)
                                    <= FORCE_CAP as int,
                            forces_idle(doc@) ==> forall|k0: int|
                                0 <= k0 < n ==> (#[trigger] fv@[k0]) == (0i64, 0i64),
                    {
                        proof {
                            lemma_arrow_inner_unfold(
                                doc@.projects,
                                x1 as int,
                                y1 as int,
                                x2 as int,
                                y2 as int,
                                len2 as int,
                                fi as int,
                                ti as int,
                                force_views(fv@),
                                i as int,
                            );
                        }
                        if i != fi && i != ti {
                            let pushed = arrow_step_exec(doc, &mut fv, x1, y1, x2, y2, len2, i);
                            proof {
                                if pushed && forces_idle(doc@) {
                                    let pid = doc@.projects[i as int].id;
                                    assert(doc@.projects[fi as int].id != pid);
                                    assert(doc@.projects[ti as int].id != pid);
                                    assert(arrow_clear(
                                        doc@,
                                        pid,
                                        doc@.projects[i as int].x,
                                        doc@.projects[i as int].y,
                                        doc@.projects[i as int].radius,
                                    ));
                                    crate::region::lemma_arrow_clear_instance(
                                        doc@,
                                        pid,
                                        doc@.projects[i as int].x,
                                        doc@.projects[i as int].y,
                                        doc@.projects[i as int].radius,
                                        k as int,
                                        fi as int,
                                        ti as int,
                                    );
                                    assert(false);
                                }
                            }
                        }
                    }
                    proof {
                        lemma_arrow_inner_end(
                            doc@.projects,
                            x1 as int,
                            y1 as int,
                            x2 as int,
                            y2 as int,
                            len2 as int,
                            fi as int,
                            ti as int,
                            force_views(fv@),
                            n as int,
                        );
                    }
                }
            },
            _ => {
                proof {
                    if fi is None {
                        assert(forall|i0: int|
                            0 <= i0 < doc@.projects.len() ==> (#[trigger] doc@.projects[i0]).id
                                != doc@.relations[k as int].from_id);
                        assert(!has_project(doc@.projects, doc@.relations[k as int].from_id));
                    } else {
                        assert(forall|j0: int|
                            0 <= j0 < doc@.projects.len() ==> (#[trigger] doc@.projects[j0]).id
                                != doc@.relations[k as int].to_id);
                        assert(!has_project(doc@.projects, doc@.relations[k as int].to_id));
                    }
                }
            },
        }
    }
    proof {
        lemma_arrows_fold_end(doc@, force_views(fv@), rn as int);
    }
    fv
}

/// Magnitude bound for a force term `muldiv(a, num, dist)`.
proof fn lemma_force_term(a: int, num: int, dist: int, abound: int, nbound: int)
    requires
        mag(a) <= abound,
        0 <= num <= nbound,
        0 < dist,
        0 <= abound <= 40_000_000,
        0 <= nbound <= 1_100_000_000,
    ensures
        mag(a) * num / dist <= i64::MAX as int,
        mag(muldiv(a, num, dist)) <= 44_000_000_000_000_000,
{
    assert(0 <= mag(a) * num <= 44_000_000_000_000_000) by (nonlinear_arith)
        requires
            0 <= mag(a) <= abound,
            0 <= num <= nbound,
            0 <= abound <= 40_000_000,
            0 <= nbound <= 1_100_000_000,
    ;
    vstd::arithmetic::div_mod::lemma_div_nonincreasing(mag(a) * num, dist);
    vstd::arithmetic::div_mod::lemma_div_pos_is_pos(mag(a) * num, dist);
    crate::geom::lemma_tdiv_mag(a * num, dist);
    assert(mag(a * num) == mag(a) * num) by (nonlinear_arith)
        requires
            num >= 0,
    ;
}

/// Commit the damped move of node `i`, with the axis-locked retries.
fn apply_one(doc: &mut AppData, f: (i64, i64), i: usize) -> (committed: bool)
    requires
        old(doc)@.wf(),
        i < old(doc)@.projects.len(),
        mag(f.0 as int) <= FORCE_CAP as int,
        mag(f.1 as int) <= FORCE_CAP as int,
    ensures
        final(doc)@.wf(),
        final(doc)@.fields == old(doc)@.fields,
        final(doc)@.relations == old(doc)@.relations,
        final(doc)@.relation_tags == old(doc)@.relation_tags,
        (final(doc)@.projects, committed) == apply_step(
            old(doc)@.fields,
            old(doc)@.projects,
            (f.0 as int, f.1 as int),
            i as int,
        ),
        forall|k: int|
            0 <= k < final(doc)@.projects.len() && k != i as int
                ==> #[trigger] final(doc)@.projects[k] == old(doc)@.projects[k],
        final(doc)@.projects[i as int] == old(doc)@.projects[i as int] || region_valid(
            final(doc)@.fields,
            final(doc)@.projects[i as int],
        ),
        same_projects_but_positions(old(doc)@.projects, final(doc)@.projects),
        !committed ==> final(doc)@ == old(doc)@,
{
    if f.0 > 100 || f.0 < -100 || f.1 > 100 || f.1 < -100 {
        assert(doc@.projects[i as int] == doc.projects@[i as int]@
            && doc@.projects[i as int].wf());
        proof {
            vstd::arithmetic::div_mod::lemma_div_nonincreasing(mag(f.0 as int) * 8, 10000);
            vstd::arithmetic::div_mod::lemma_div_nonincreasing(mag(f.1 as int) * 8, 10000);
            assert(0 <= mag(f.0 as int) * 8 <= 8_000_000_000_000_000 && 0 <= mag(f.1 as int) * 8
                <= 8_000_000_000_000_000) by (nonlinear_arith)
                requires
                    0 <= mag(f.0 as int) <= FORCE_CAP as int,
                    0 <= mag(f.1 as int) <= FORCE_CAP as int,
                    FORCE_CAP == 1_000_000_000_000_000,
            ;
        }
        let mvx = muldiv_i64(f.0, 8, 10000);
        let mvy = muldiv_i64(f.1, 8, 10000);
        let px = doc.projects[i].position.0;
        let py = doc.projects[i].position.1;
        let nxp = clamp_i64(px + mvx, -COORD_LIMIT, COORD_LIMIT);
        let nyp = clamp_i64(py + mvy, -COORD_LIMIT, COORD_LIMIT);
        let pr = doc.projects[i].radius;
        let (cx, cy, ok) = if region_ok_at(
            &doc.fields,
            &doc.projects[i].field_ids,
            nxp,
            nyp,
            pr,
            MEMBER_MARGIN,
        ) {
            (nxp, nyp, true)
        } else if region_ok_at(&doc.fields, &doc.projects[i].field_ids, nxp, py, pr, MEMBER_MARGIN) {
            (nxp, py, true)
        } else if region_ok_at(&doc.fields, &doc.projects[i].field_ids, px, nyp, pr, MEMBER_MARGIN) {
            (px, nyp, true)
        } else {
            (px, py, false)
        };
        if ok {
            let ghost before = doc@.projects;
            doc.projects[i].position = (cx, cy);
            proof {
                assert(doc.projects@[i as int]@ == before[i as int].moved_to(cx as int, cy as int));
                assert(doc@.projects =~= before.update(
                    i as int,
                    before[i as int].moved_to(cx as int, cy as int),
                ));
                assert(region_valid(doc@.fields, doc@.projects[i as int]));
            }
            true
        } else {
            proof {
                assert(doc@.projects =~= old(doc)@.projects);
            }
            false
        }
    } else {
        proof {
            assert(doc@.projects =~= old(doc)@.projects);
        }
        false
    }
}

/// Run up to fifty damped force-resolution passes over all projects; the
/// result is exactly [`relax_iter`] over fifty passes, and the returned
/// flag says whether the first pass committed any move (no later pass can
/// be the first to move).  Only positions change; a node moves only to a
/// region-valid position, so every node that was region-valid stays so,
/// and a settled document does not change at all.
pub fn relax(doc: &mut AppData) -> (moved: bool)
    requires
        old(doc)@.wf(),
    ensures
        final(doc)@.wf(),
        final(doc)@.fields == old(doc)@.fields,
        final(doc)@.relations == old(doc)@.relations,
        final(doc)@.relation_tags == old(doc)@.relation_tags,
        same_projects_but_positions(old(doc)@.projects, final(doc)@.projects),
        final(doc)@.projects == relax_iter(old(doc)@, 50),
        moved == relax_pass(old(doc)@).1,
        forall|i: int|
            0 <= i < final(doc)@.projects.len() && region_valid(
                old(doc)@.fields,
                old(doc)@.projects[i],
            ) ==> region_valid(final(doc)@.fields, #[trigger] final(doc)@.projects[i]),
        forall|i: int|
            0 <= i < final(doc)@.projects.len() ==> #[trigger] final(doc)@.projects[i] == old(
                doc,
            )@.projects[i] || region_valid(final(doc)@.fields, final(doc)@.projects[i]),
        !moved ==> final(doc)@ == old(doc)@,
        settled(old(doc)@) ==> final(doc)@ == old(doc)@ && !moved,
{
    let n = doc.projects.len();
    let mut moved_any = false;
    let mut done = false;
    for pass in 0..50u32
        invariant
            doc@.wf(),
            n == doc.projects.len(),
            doc@.fields == old(doc)@.fields,
            doc@.relations == old(doc)@.relations,
            doc@.relation_tags == old(doc)@.relation_tags,
            same_projects_but_positions(old(doc)@.projects, doc@.projects),
            forall|i: int|
                0 <= i < doc@.projects.len() && region_valid(
                    old(doc)@.fields,
                    old(doc)@.projects[i],
                ) ==> region_valid(doc@.fields, #[trigger] doc@.projects[i]),
            forall|i: int|
                0 <= i < doc@.projects.len() ==> #[trigger] doc@.projects[i] == old(
                    doc,
                )@.projects[i] || region_valid(doc@.fields, doc@.projects[i]),
            pass == 0 ==> !done && !moved_any && doc@ == old(doc)@,
            done ==> pass >= 1,
            moved_any == (pass >= 1 && relax_pass(old(doc)@).1),
            !done && pass >= 1 ==> moved_any,
            done ==> relax_iter(old(doc)@, 50) == doc@.projects,
            !done ==> relax_iter(old(doc)@, 50) == relax_iter(doc@, (50 - pass) as nat),
            !moved_any ==> doc@ == old(doc)@,
            settled(old(doc)@) ==> doc@ == old(doc)@ && !moved_any,
    {
        if !done {
            proof {
                lemma_relax_iter_unfold(doc@, (50 - pass) as nat);
            }
            let ghost snap = doc@;
            let ghost pre_moved = moved_any;
            let forces = compute_forces(doc);
            let mut any_this = false;
            proof {
                assert((apply_fold(snap.fields, snap.projects, forces_spec(snap), 0).0, false
                    || apply_fold(snap.fields, snap.projects, forces_spec(snap), 0).1)
                    == apply_fold(snap.fields, snap.projects, forces_spec(snap), 0));
            }
            for i in 0..n
                invariant
                    doc@.wf(),
                    n == doc.projects.len(),
                    forces@.len() == n,
                    force_views(forces@) == forces_spec(snap),
                    forall|k0: int|
                        0 <= k0 < n ==> mag((#[trigger] forces@[k0]).0 as int) <= FORCE_CAP as int
                            && mag(forces@[k0].1 as int) <= FORCE_CAP as int,
                    doc@.fields == snap.fields,
                    doc@.relations == snap.relations,
                    doc@.relation_tags == snap.relation_tags,
                    same_projects_but_positions(snap.projects, doc@.projects),
                    forall|k: int| i <= k < n ==> #[trigger] doc@.projects[k] == snap.projects[k],
                    forall|k: int|
                        0 <= k < i ==> #[trigger] doc@.projects[k] == snap.projects[k]
                            || region_valid(doc@.fields, doc@.projects[k]),
                    apply_fold(snap.fields, snap.projects, forces_spec(snap), 0) == ({
                        let rest = apply_fold(snap.fields, doc@.projects, forces_spec(snap), i as int);
                        (rest.0, any_this || rest.1)
                    }),
                    moved_any == (pre_moved || any_this),
                    (forall|k0: int| 0 <= k0 < n ==> (#[trigger] forces@[k0]) == (0i64, 0i64))
                        ==> !any_this && doc@ == snap,
                    !any_this ==> doc@ == snap,
            {
                proof {
                    lemma_apply_fold_unfold(snap.fields, doc@.projects, forces_spec(snap), i as int);
                    let fcur = forces@[i as int];
                    assert(forces_spec(snap)[i as int] == (fcur.0 as int, fcur.1 as int));
                }
                let committed = apply_one(doc, forces[i], i);
                if committed {
                    any_this = true;
                    moved_any = true;
                }
            }
            proof {
                lemma_apply_fold_end(snap.fields, doc@.projects, forces_spec(snap), n as int);
                assert(relax_pass(snap) == (doc@.projects, any_this));
                if settled(snap) {
                    assert(forall|k0: int|
                        0 <= k0 < n ==> (#[trigger] forces@[k0]) == (0i64, 0i64));
                }
            }
            if !any_this {
                done = true;
            }
            proof {
                if pass == 0 {
                    assert(snap == old(doc)@);
                }
                assert(doc@ =~= (DocView { projects: doc@.projects, ..snap }));
            }
        }
    }
    proof {
        if !done {
            lemma_relax_iter_end(doc@);
        }
    }
    moved_any
}

} // verus!
