//! Region classifier.
//!
//! A project position is *region-valid* when the project's circle lies
//! fully inside every field it belongs to (with a safety margin) and fully
//! outside every other field; a project with no memberships must lie
//! outside all fields.  Region validity is a hard constraint.  Overlap
//! with other projects and with relation arrows is layered on top of it
//! and resolved best-effort by the placement search and the relaxation
//! engine.
//!
//! All tests compare squared distances, so the classifier is exact.
//! One margin policy holds throughout: membership containment always
//! keeps the five-unit margin, whether checked after a drag, during
//! relaxation, or by the validator; exclusion from non-member fields
//! never grants a margin.

use crate::geom::{
    dist2, dist2_i64, mag, near_segment, point_near_segment, sq, ARROW_GAP, GEOM_BOUND,
    MEMBER_MARGIN, PROJECT_GAP, RADIUS_LIMIT,
};
use crate::models::{
    all_fields_wf, contains_id, field_views, find_project_index, id_in, AppData, DocView,
    FieldView, Project, ProjectView, ResearchField,
};
use vstd::prelude::*;

verus! {

/// The circle at `(x, y)` with radius `pr` lies fully inside the field,
/// `margin` units clear of its rim.
pub open spec fn within_field(f: FieldView, x: int, y: int, pr: int, margin: int) -> bool {
    let lim = f.radius - margin - pr;
    lim >= 0 && dist2(x, y, f.x, f.y) <= lim * lim
}

/// The circle at `(x, y)` with radius `pr` lies fully outside the field.
pub open spec fn outside_field(f: FieldView, x: int, y: int, pr: int) -> bool {
    dist2(x, y, f.x, f.y) >= sq(f.radius + pr)
}

/// What one field demands of a project circle with membership list `ids`.
pub open spec fn field_rule_ok(
    f: FieldView,
    ids: Seq<Seq<char>>,
    x: int,
    y: int,
    pr: int,
    margin: int,
) -> bool {
    if ids.len() == 0 {
        outside_field(f, x, y, pr)
    } else if id_in(ids, f.id) {
        within_field(f, x, y, pr, margin)
    } else {
        outside_field(f, x, y, pr)
    }
}

/// The circle at `(x, y)` satisfies every field's demand.
pub open spec fn region_ok(
    fields: Seq<FieldView>,
    ids: Seq<Seq<char>>,
    x: int,
    y: int,
    pr: int,
    margin: int,
) -> bool {
    forall|j: int|
        0 <= j < fields.len() ==> field_rule_ok(#[trigger] fields[j], ids, x, y, pr, margin)
}

/// Region validity of a placed project, with the standard margin.
pub open spec fn region_valid(fields: Seq<FieldView>, p: ProjectView) -> bool {
    region_ok(fields, p.field_ids, p.x, p.y, p.radius, MEMBER_MARGIN as int)
}

/// The circle at `(x, y)` keeps the required gap from every project other
/// than the one named `skip`.
pub open spec fn clear_of_projects(
    projects: Seq<ProjectView>,
    skip: Seq<char>,
    x: int,
    y: int,
    pr: int,
) -> bool {
    forall|j: int|
        0 <= j < projects.len() && (#[trigger] projects[j]).id != skip ==> dist2(
            x,
            y,
            projects[j].x,
            projects[j].y,
        ) >= sq(pr + projects[j].radius + PROJECT_GAP as int)
}

/// The circle at `(x, y)` stays out of the corridor of every relation
/// arrow whose two endpoints resolve and do not involve the project named
/// `skip`.
pub open spec fn arrow_clear(doc: DocView, skip: Seq<char>, x: int, y: int, pr: int) -> bool {
    forall|k: int, i: int, j: int|
        0 <= k < doc.relations.len() && 0 <= i < doc.projects.len() && 0 <= j
            < doc.projects.len() && (#[trigger] doc.relations[k]).from_id == (
        #[trigger] doc.projects[i]).id && doc.relations[k].to_id == (#[trigger] doc.projects[j]).id
            && doc.relations[k].from_id != skip && doc.relations[k].to_id != skip ==> !near_segment(
            x,
            y,
            doc.projects[i].x,
            doc.projects[i].y,
            doc.projects[j].x,
            doc.projects[j].y,
            pr + ARROW_GAP as int,
        )
}

/// What `arrow_clear` says of one live relation that does not involve the
/// skipped project.
pub proof fn lemma_arrow_clear_instance(
    doc: DocView,
    skip: Seq<char>,
    x: int,
    y: int,
    pr: int,
    k: int,
    fi: int,
    ti: int,
)
    requires
        arrow_clear(doc, skip, x, y, pr),
        0 <= k < doc.relations.len(),
        0 <= fi < doc.projects.len(),
        0 <= ti < doc.projects.len(),
        doc.relations[k].from_id == doc.projects[fi].id,
        doc.relations[k].to_id == doc.projects[ti].id,
        doc.relations[k].from_id != skip,
        doc.relations[k].to_id != skip,
    ensures
        !near_segment(
            x,
            y,
            doc.projects[fi].x,
            doc.projects[fi].y,
            doc.projects[ti].x,
            doc.projects[ti].y,
            pr + ARROW_GAP as int,
        ),
{
}

/// A position that is both region-valid and clear of all other projects:
/// what the manual-drag check accepts.
pub open spec fn position_free(doc: DocView, p: ProjectView) -> bool {
    region_valid(doc.fields, p) && clear_of_projects(doc.projects, p.id, p.x, p.y, p.radius)
}

/// Some pair of projects sits closer than their radii plus `spacing`.
pub open spec fn any_overlap(projects: Seq<ProjectView>, spacing: int) -> bool {
    exists|i: int, j: int|
        0 <= i < j < projects.len() && dist2(
            (#[trigger] projects[i]).x,
            projects[i].y,
            (#[trigger] projects[j]).x,
            projects[j].y,
        ) < sq(projects[i].radius + projects[j].radius + spacing)
}

/// Exact test of `within_field`.
pub fn circle_within(fx: i64, fy: i64, fr: i64, x: i64, y: i64, pr: i64, margin: i64) -> (b: bool)
    requires
        mag(fx as int) <= GEOM_BOUND as int,
        mag(fy as int) <= GEOM_BOUND as int,
        0 <= fr <= RADIUS_LIMIT,
        mag(x as int) <= 10 * GEOM_BOUND as int,
        mag(y as int) <= 10 * GEOM_BOUND as int,
        0 <= pr <= RADIUS_LIMIT,
        0 <= margin <= 1000,
    ensures
        b == within_field(
            FieldView { id: Seq::empty(), x: fx as int, y: fy as int, radius: fr as int },
            x as int,
            y as int,
            pr as int,
            margin as int,
        ),
{
    let lim = fr - margin - pr;
    if lim < 0 {
        return false;
    }
    let d2 = dist2_i64(x, y, fx, fy);
    proof {
        assert(0 <= (lim as int) * (lim as int) <= 1_000_000_000_000) by (nonlinear_arith)
            requires
                0 <= lim as int <= 1_000_000,
        ;
    }
    d2 <= lim * lim
}

/// Exact test of `outside_field`.
pub fn circle_outside(fx: i64, fy: i64, fr: i64, x: i64, y: i64, pr: i64) -> (b: bool)
    requires
        mag(fx as int) <= GEOM_BOUND as int,
        mag(fy as int) <= GEOM_BOUND as int,
        0 <= fr <= RADIUS_LIMIT,
        mag(x as int) <= 10 * GEOM_BOUND as int,
        mag(y as int) <= 10 * GEOM_BOUND as int,
        0 <= pr <= RADIUS_LIMIT,
    ensures
        b == outside_field(
            FieldView { id: Seq::empty(), x: fx as int, y: fy as int, radius: fr as int },
            x as int,
            y as int,
            pr as int,
        ),
{
    let s = fr + pr;
    let d2 = dist2_i64(x, y, fx, fy);
    proof {
        assert(0 <= (s as int) * (s as int) <= 4_000_000_000_000) by (nonlinear_arith)
            requires
                0 <= s as int <= 2_000_000,
        ;
    }
    d2 >= s * s
}

/// Whether the circle at `(x, y)` with radius `pr` and membership list
/// `ids` satisfies every field's demand, with the given containment
/// margin.
pub fn region_ok_at(
    fields: &Vec<ResearchField>,
    ids: &Vec<String>,
    x: i64,
    y: i64,
    pr: i64,
    margin: i64,
) -> (b: bool)
    requires
        all_fields_wf(field_views(fields@)),
        mag(x as int) <= 10 * GEOM_BOUND as int,
        mag(y as int) <= 10 * GEOM_BOUND as int,
        0 <= pr <= RADIUS_LIMIT,
        0 <= margin <= 1000,
    ensures
        b == region_ok(
            field_views(fields@),
            ids.deep_view(),
            x as int,
            y as int,
            pr as int,
            margin as int,
        ),
{
    let n = fields.len();
    let no_memberships = ids.len() == 0;
    for j in 0..n
        invariant
            all_fields_wf(field_views(fields@)),
            n == fields.len(),
            no_memberships == (ids.deep_view().len() == 0),
            mag(x as int) <= 10 * GEOM_BOUND as int,
            mag(y as int) <= 10 * GEOM_BOUND as int,
            0 <= pr <= RADIUS_LIMIT,
            0 <= margin <= 1000,
            forall|k: int|
                0 <= k < j ==> field_rule_ok(
                    #[trigger] field_views(fields@)[k],
                    ids.deep_view(),
                    x as int,
                    y as int,
                    pr as int,
                    margin as int,
                ),
    {
        let f = &fields[j];
        assert(field_views(fields@)[j as int] == f@);
        assert(field_views(fields@)[j as int].wf());
        let ok = if no_memberships {
            circle_outside(f.position.0, f.position.1, f.radius, x, y, pr)
        } else if contains_id(ids, &f.id) {
            circle_within(f.position.0, f.position.1, f.radius, x, y, pr, margin)
        } else {
            circle_outside(f.position.0, f.position.1, f.radius, x, y, pr)
        };
        if !ok {
            assert(!field_rule_ok(
                field_views(fields@)[j as int],
                ids.deep_view(),
                x as int,
                y as int,
                pr as int,
                margin as int,
            ));
            return false;
        }
    }
    true
}

/// Whether a project's current position is region-valid: fully inside all
/// its fields with the standard margin, fully outside all other fields.
pub fn is_valid_region(project: &Project, doc: &AppData) -> (b: bool)
    requires
        doc@.wf(),
        project@.wf(),
    ensures
        b == region_valid(doc@.fields, project@),
{
    region_ok_at(
        &doc.fields,
        &project.field_ids,
        project.position.0,
        project.position.1,
        project.radius,
        MEMBER_MARGIN,
    )
}

/// Whether the circle at `(x, y)` keeps the required gap from every
/// project other than the one named `skip`.
pub fn clear_of_projects_at(doc: &AppData, skip: &String, x: i64, y: i64, pr: i64) -> (b: bool)
    requires
        doc@.wf(),
        mag(x as int) <= 10 * GEOM_BOUND as int,
        mag(y as int) <= 10 * GEOM_BOUND as int,
        0 <= pr <= RADIUS_LIMIT,
    ensures
        b == clear_of_projects(doc@.projects, skip@, x as int, y as int, pr as int),
{
    let n = doc.projects.len();
    for j in 0..n
        invariant
            doc@.wf(),
            n == doc.projects.len(),
            mag(x as int) <= 10 * GEOM_BOUND as int,
            mag(y as int) <= 10 * GEOM_BOUND as int,
            0 <= pr <= RADIUS_LIMIT,
            forall|k: int|
                0 <= k < j && (#[trigger] doc@.projects[k]).id != skip@ ==> dist2(
                    x as int,
                    y as int,
                    doc@.projects[k].x,
                    doc@.projects[k].y,
                ) >= sq(pr + doc@.projects[k].radius + PROJECT_GAP as int),
    {
        let other = &doc.projects[j];
        assert(doc@.projects[j as int] == other@);
        assert(doc@.projects[j as int].wf());
        if !(other.id == *skip) {
            let s = pr + other.radius + PROJECT_GAP;
            let d2 = dist2_i64(x, y, other.position.0, other.position.1);
            proof {
                assert(0 <= (s as int) * (s as int) <= 9_000_000_000_000) by (nonlinear_arith)
                    requires
                        0 <= s as int <= 3_000_000,
                ;
            }
            if d2 < s * s {
                return false;
            }
        }
    }
    true
}

/// Whether a project's current position is fully valid: region-valid and
/// clear of every other project.  Used after a manual drag.
pub fn is_position_valid(project: &Project, doc: &AppData) -> (b: bool)
    requires
        doc@.wf(),
        project@.wf(),
    ensures
        b == position_free(doc@, project@),
{
    let region = is_valid_region(project, doc);
    if !region {
        return false;
    }
    clear_of_projects_at(doc, &project.id, project.position.0, project.position.1, project.radius)
}

/// Whether any two projects sit closer than their radii plus
/// `min_spacing`.
pub fn any_project_overlap(doc: &AppData, min_spacing: i64) -> (b: bool)
    requires
        doc@.wf(),
        0 <= min_spacing <= 1000,
    ensures
        b == any_overlap(doc@.projects, min_spacing as int),
{
    let n = doc.projects.len();
    for i in 0..n
        invariant
            doc@.wf(),
            n == doc.projects.len(),
            0 <= min_spacing <= 1000,
            forall|a: int, b0: int|
                0 <= a < b0 < n && a < i ==> dist2(
                    (#[trigger] doc@.projects[a]).x,
                    doc@.projects[a].y,
                    (#[trigger] doc@.projects[b0]).x,
                    doc@.projects[b0].y,
                ) >= sq(doc@.projects[a].radius + doc@.projects[b0].radius + min_spacing as int),
    {
        let p1 = &doc.projects[i];
        assert(doc@.projects[i as int] == p1@ && doc@.projects[i as int].wf());
        for j in (i + 1)..n
            invariant
                doc@.wf(),
                n == doc.projects.len(),
                0 <= min_spacing <= 1000,
                i < n,
                p1@ == doc@.projects[i as int],
                forall|a: int, b0: int|
                    0 <= a < b0 < n && a < i ==> dist2(
                        (#[trigger] doc@.projects[a]).x,
                        doc@.projects[a].y,
                        (#[trigger] doc@.projects[b0]).x,
                        doc@.projects[b0].y,
                    ) >= sq(doc@.projects[a].radius + doc@.projects[b0].radius + min_spacing as int),
                forall|b0: int|
                    i < b0 < j ==> dist2(
                        doc@.projects[i as int].x,
                        doc@.projects[i as int].y,
                        (#[trigger] doc@.projects[b0]).x,
                        doc@.projects[b0].y,
                    ) >= sq(
                        doc@.projects[i as int].radius + doc@.projects[b0].radius
                            + min_spacing as int,
                    ),
        {
            let p2 = &doc.projects[j];
            assert(doc@.projects[j as int] == p2@ && doc@.projects[j as int].wf());
            let s = p1.radius + p2.radius + min_spacing;
            let d2 = dist2_i64(p1.position.0, p1.position.1, p2.position.0, p2.position.1);
            proof {
                assert(0 <= (s as int) * (s as int) <= 9_000_000_000_000) by (nonlinear_arith)
                    requires
                        0 <= s as int <= 3_000_000,
                ;
            }
            if d2 < s * s {
                return true;
            }
        }
    }
    false
}

/// Whether the circle at `(x, y)` stays out of every live relation
/// arrow's corridor, ignoring arrows that start or end at the project
/// named `skip`.
pub fn arrow_clear_at(doc: &AppData, skip: &String, x: i64, y: i64, pr: i64) -> (b: bool)
    requires
        doc@.wf(),
        mag(x as int) <= 10 * GEOM_BOUND as int,
        mag(y as int) <= 10 * GEOM_BOUND as int,
        0 <= pr <= RADIUS_LIMIT,
    ensures
        b == arrow_clear(doc@, skip@, x as int, y as int, pr as int),
{
    let n = doc.relations.len();
    for k in 0..n
        invariant
            doc@.wf(),
            n == doc.relations.len(),
            mag(x as int) <= 10 * GEOM_BOUND as int,
            mag(y as int) <= 10 * GEOM_BOUND as int,
            0 <= pr <= RADIUS_LIMIT,
            forall|k0: int, i: int, j: int|
                0 <= k0 < k && 0 <= i < doc@.projects.len() && 0 <= j < doc@.projects.len() && (
                #[trigger] doc@.relations[k0]).from_id == (#[trigger] doc@.projects[i]).id
                    && doc@.relations[k0].to_id == (#[trigger] doc@.projects[j]).id
                    && doc@.relations[k0].from_id != skip@ && doc@.relations[k0].to_id != skip@
                    ==> !near_segment(
                    x as int,
                    y as int,
                    doc@.projects[i].x,
                    doc@.projects[i].y,
                    doc@.projects[j].x,
                    doc@.projects[j].y,
                    pr as int + ARROW_GAP as int,
                ),
    {
        let rel = &doc.relations[k];
        assert(doc@.relations[k as int] == rel@);
        let involves_skip = rel.from_id == *skip || rel.to_id == *skip;
        if !involves_skip {
            let fi = find_project_index(&doc.projects, &rel.from_id);
            let ti = find_project_index(&doc.projects, &rel.to_id);
            match (fi, ti) {
                (Some(i0), Some(j0)) => {
                    let from = &doc.projects[i0];
                    let to = &doc.projects[j0];
                    assert(doc@.projects[i0 as int] == from@ && doc@.projects[i0 as int].wf());
                    assert(doc@.projects[j0 as int] == to@ && doc@.projects[j0 as int].wf());
                    let near = point_near_segment(
                        x,
                        y,
                        from.position.0,
                        from.position.1,
                        to.position.0,
                        to.position.1,
                        pr + ARROW_GAP,
                    );
                    if near {
                        return false;
                    }
                    proof {
                        assert forall|i: int, j: int|
                            0 <= i < doc@.projects.len() && 0 <= j < doc@.projects.len()
                                && doc@.relations[k as int].from_id == (
                            #[trigger] doc@.projects[i]).id && doc@.relations[k as int].to_id == (
                            #[trigger] doc@.projects[j]).id implies doc@.projects[i]
                            == doc@.projects[i0 as int] && doc@.projects[j]
                            == doc@.projects[j0 as int] by {
                            if i != i0 as int {
                                assert(doc@.projects[i].id == doc@.projects[i0 as int].id);
                            }
                            if j != j0 as int {
                                assert(doc@.projects[j].id == doc@.projects[j0 as int].id);
                            }
                        }
                    }
                },
                _ => {
                    proof {
                        if fi is None {
                            assert(forall|i: int|
                                0 <= i < doc@.projects.len() ==> (#[trigger] doc@.projects[i]).id
                                    != doc@.relations[k as int].from_id);
                        } else {
                            assert(forall|j: int|
                                0 <= j < doc@.projects.len() ==> (#[trigger] doc@.projects[j]).id
                                    != doc@.relations[k as int].to_id);
                        }
                    }
                },
            }
        }
    }
    true
}

} // verus!
