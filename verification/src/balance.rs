//! Field layout balancer for the canonical three-field diagram.
//!
//! With exactly three fields, each field's radius grows with the share of
//! projects that belong to it, and the three centres sit on an equilateral
//! triangle around the canvas point (400, 400).  The triangle shrinks as
//! the share of projects belonging to all three fields grows, and is
//! clamped so that the circles are guaranteed to intersect.  Documents
//! with any other number of fields, or with no projects, are left alone.

use crate::geom::{imax, imin};
use crate::models::{contains_id, id_in, project_views, AppData, FieldView, Project, ProjectView};
use vstd::prelude::*;

verus! {

/// How many of the first `i` projects belong to the field with this id.
pub open spec fn count_members(projects: Seq<ProjectView>, fid: Seq<char>, i: int) -> int
    decreases i,
{
    if i <= 0 {
        0
    } else {
        count_members(projects, fid, i - 1) + if id_in(projects[i - 1].field_ids, fid) {
            1int
        } else {
            0int
        }
    }
}

/// How many of the first `i` projects belong to all three fields.
pub open spec fn count_in_all3(
    projects: Seq<ProjectView>,
    f1: Seq<char>,
    f2: Seq<char>,
    f3: Seq<char>,
    i: int,
) -> int
    decreases i,
{
    if i <= 0 {
        0
    } else {
        count_in_all3(projects, f1, f2, f3, i - 1) + if id_in(projects[i - 1].field_ids, f1)
            && id_in(projects[i - 1].field_ids, f2) && id_in(projects[i - 1].field_ids, f3) {
            1int
        } else {
            0int
        }
    }
}

/// A balanced field radius: the base of 180 units plus up to 80 units
/// proportional to the field's share of all projects.
pub open spec fn balanced_radius(cnt: int, total: int) -> int
    recommends
        total > 0,
{
    180 + cnt * 80 / total
}

/// Distance from the canvas centre to each field centre: shrinks as the
/// all-three share grows, clamped so the circle pairs keep intersecting,
/// with an eighty-unit floor.
pub open spec fn triangle_scale(ca: int, total: int, r1: int, r2: int, r3: int) -> int
    recommends
        total > 0,
{
    let w = imin(ca * 1000 / total, 1000);
    let t0 = 120 * (1000 - w * 400 / 1000) / 1000;
    let mps = imin(r1 + r2, imin(r2 + r3, r1 + r3));
    if t0 * 1732 > mps * 800 {
        imax(mps * 46 / 100, 80)
    } else {
        t0
    }
}

/// The three fields as the balancer lays them out: new radii from the
/// membership shares, centres on an equilateral triangle around
/// (400, 400), names and ids untouched.
pub open spec fn balanced_fields(
    fields: Seq<FieldView>,
    projects: Seq<ProjectView>,
) -> Seq<FieldView>
    recommends
        fields.len() == 3,
        projects.len() > 0,
{
    let total = projects.len() as int;
    let c1 = count_members(projects, fields[0].id, total);
    let c2 = count_members(projects, fields[1].id, total);
    let c3 = count_members(projects, fields[2].id, total);
    let ca = count_in_all3(projects, fields[0].id, fields[1].id, fields[2].id, total);
    let r1 = balanced_radius(c1, total);
    let r2 = balanced_radius(c2, total);
    let r3 = balanced_radius(c3, total);
    let t = triangle_scale(ca, total, r1, r2, r3);
    seq![
        FieldView { x: 400, y: 400 - t, radius: r1, ..fields[0] },
        FieldView { x: 400 + t * 866 / 1000, y: 400 + t / 2, radius: r2, ..fields[1] },
        FieldView { x: 400 - t * 866 / 1000, y: 400 + t / 2, radius: r3, ..fields[2] },
    ]
}

/// How many projects belong to the field with this id.
fn count_members_exec(projects: &Vec<Project>, fid: &String) -> (c: usize)
    ensures
        c as int == count_members(project_views(projects@), fid@, projects@.len() as int),
        c <= projects@.len(),
{
    let n = projects.len();
    let mut c: usize = 0;
    for i in 0..n
        invariant
            n == projects.len(),
            c as int == count_members(project_views(projects@), fid@, i as int),
            c <= i,
    {
        assert(project_views(projects@)[i as int] == projects@[i as int]@);
        if contains_id(&projects[i].field_ids, fid) {
            c = c + 1;
        }
    }
    c
}

/// How many projects belong to all three fields.
fn count_all3_exec(projects: &Vec<Project>, f1: &String, f2: &String, f3: &String) -> (c: usize)
    ensures
        c as int == count_in_all3(
            project_views(projects@),
            f1@,
            f2@,
            f3@,
            projects@.len() as int,
        ),
        c <= projects@.len(),
{
    let n = projects.len();
    let mut c: usize = 0;
    for i in 0..n
        invariant
            n == projects.len(),
            c as int == count_in_all3(project_views(projects@), f1@, f2@, f3@, i as int),
            c <= i,
    {
        assert(project_views(projects@)[i as int] == projects@[i as int]@);
        let p = &projects[i];
        if contains_id(&p.field_ids, f1) && contains_id(&p.field_ids, f2) && contains_id(
            &p.field_ids,
            f3,
        ) {
            c = c + 1;
        }
    }
    c
}

/// `180 + cnt * 80 / total` in machine arithmetic.
fn radius_of_share(cnt: usize, total: usize) -> (r: i64)
    requires
        total > 0,
        cnt <= total,
    ensures
        r as int == balanced_radius(cnt as int, total as int),
        180 <= r <= 260,
{
    let q: u128 = (cnt as u128) * 80 / (total as u128);
    proof {
        assert(0 <= (cnt as int) * 80 <= (total as int) * 80) by (nonlinear_arith)
            requires
                0 <= cnt as int <= total as int,
        ;
        vstd::arithmetic::div_mod::lemma_div_is_ordered(
            (cnt as int) * 80,
            (total as int) * 80,
            total as int,
        );
        assert((total as int) * 80 == 80 * (total as int)) by (nonlinear_arith);
        vstd::arithmetic::div_mod::lemma_div_multiples_vanish(80, total as int);
        vstd::arithmetic::div_mod::lemma_div_pos_is_pos((cnt as int) * 80, total as int);
    }
    180 + (q as i64)
}

/// Balance the three-field layout: radii from membership shares, centres
/// on a shrinking equilateral triangle.  A document without exactly three
/// fields, or without projects, is returned unchanged.
pub fn balance_three_fields(doc: &mut AppData)
    requires
        old(doc)@.wf(),
    ensures
        final(doc)@.wf(),
        final(doc)@.projects == old(doc)@.projects,
        final(doc)@.relations == old(doc)@.relations,
        final(doc)@.relation_tags == old(doc)@.relation_tags,
        old(doc)@.fields.len() == 3 && old(doc)@.projects.len() > 0 ==> final(doc)@.fields
            == balanced_fields(old(doc)@.fields, old(doc)@.projects),
        !(old(doc)@.fields.len() == 3 && old(doc)@.projects.len() > 0) ==> final(doc)@ == old(
            doc,
        )@,
{
    if doc.fields.len() != 3 {
        return ;
    }
    let total = doc.projects.len();
    if total == 0 {
        return ;
    }
    let c1 = count_members_exec(&doc.projects, &doc.fields[0].id);
    let c2 = count_members_exec(&doc.projects, &doc.fields[1].id);
    let c3 = count_members_exec(&doc.projects, &doc.fields[2].id);
    let ca = count_all3_exec(&doc.projects, &doc.fields[0].id, &doc.fields[1].id, &doc.fields[2].id);
    let r1 = radius_of_share(c1, total);
    let r2 = radius_of_share(c2, total);
    let r3 = radius_of_share(c3, total);
    let wq: u128 = (ca as u128) * 1000 / (total as u128);
    proof {
        assert(0 <= (ca as int) * 1000 <= (total as int) * 1000) by (nonlinear_arith)
            requires
                0 <= ca as int <= total as int,
        ;
        vstd::arithmetic::div_mod::lemma_div_is_ordered(
            (ca as int) * 1000,
            (total as int) * 1000,
            total as int,
        );
        assert((total as int) * 1000 == 1000 * (total as int)) by (nonlinear_arith);
        vstd::arithmetic::div_mod::lemma_div_multiples_vanish(1000, total as int);
        vstd::arithmetic::div_mod::lemma_div_pos_is_pos((ca as int) * 1000, total as int);
    }
    let w: i64 = if (wq as i64) <= 1000 {
        wq as i64
    } else {
        1000
    };
    let t0 = 120 * (1000 - w * 400 / 1000) / 1000;
    let mps = if r1 + r2 <= r2 + r3 && r1 + r2 <= r1 + r3 {
        r1 + r2
    } else if r2 + r3 <= r1 + r3 {
        r2 + r3
    } else {
        r1 + r3
    };
    let t = if t0 * 1732 > mps * 800 {
        let adj = mps * 46 / 100;
        if adj >= 80 {
            adj
        } else {
            80
        }
    } else {
        t0
    };
    proof {
        assert(t as int == triangle_scale(
            ca as int,
            total as int,
            r1 as int,
            r2 as int,
            r3 as int,
        ));
    }
    let ghost orig = doc@;
    doc.fields[0].position = (400, 400 - t);
    doc.fields[0].radius = r1;
    doc.fields[1].position = (400 + t * 866 / 1000, 400 + t / 2);
    doc.fields[1].radius = r2;
    doc.fields[2].position = (400 - t * 866 / 1000, 400 + t / 2);
    doc.fields[2].radius = r3;
    proof {
        assert(doc@.fields =~= balanced_fields(orig.fields, orig.projects));
        assert(doc@.fields[0].wf() && doc@.fields[1].wf() && doc@.fields[2].wf());
    }
}

} // verus!
