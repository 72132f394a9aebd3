//! Consistency validator.
//!
//! After any bulk change the validator restores the layout: every project
//! that has left its region is re-placed by the nearest-position search,
//! the relaxation engine resolves overlaps, and if overlap still persists
//! the overfull fields are grown and the region pass runs again (growing a
//! field changes which positions are region-valid).  No step can fail:
//! every search falls back to leaving a position unchanged, so at worst a
//! project keeps an invalid position rather than losing one.
//!
//! The whole run is pinned: [`regions_pass`] describes a repair pass,
//! [`validate_spec`] the full validation, and the re-derivation passes
//! are [`recalc_pass`] and [`jitter_pass`], so each mutator's result is a
//! function of the document (and, for the jittered pass, the seed)
//! alone.

use crate::geom::{clamp, clamp_i64, imin, sq, tdiv, tdiv_i64, COORD_LIMIT, PROJECT_GAP,
    RADIUS_LIMIT};
use crate::models::{project_views, AppData, DocView, FieldView, ProjectView};
use crate::place::{compute_position, nearest_place, nearest_valid_position};
use crate::region::{any_overlap, any_project_overlap, is_valid_region, region_valid};
use crate::relax::{relax, same_projects_but_positions, settled};
use vstd::prelude::*;

verus! {

/// The combined footprint demand that the projects belonging to a field
/// put on it: the summed squared diameters (plus spacing) of its members.
pub open spec fn field_demand(projects: Seq<ProjectView>, fid: Seq<char>, i: int) -> int
    decreases i,
{
    if i <= 0 {
        0
    } else {
        field_demand(projects, fid, i - 1) + if crate::models::id_in(
            projects[i - 1].field_ids,
            fid,
        ) {
            sq(2 * projects[i - 1].radius + PROJECT_GAP as int)
        } else {
            0
        }
    }
}

/// A field grows by thirty units (saturating at the radius limit) exactly
/// when its members' footprint exceeds two fifths of its own area; the
/// comparison `5 * demand > 8 * radius^2` is the exact integer form of
/// that threshold on summed circle areas.
pub open spec fn expanded_radius(projects: Seq<ProjectView>, f: FieldView) -> int {
    if 5 * field_demand(projects, f.id, projects.len() as int) > 8 * sq(f.radius) {
        imin(f.radius + 30, RADIUS_LIMIT as int)
    } else {
        f.radius
    }
}

/// Footprint demand of one field, summed in 128 bits.
fn field_demand_exec(projects: &Vec<crate::models::Project>, fid: &String) -> (d: i128)
    requires
        crate::models::all_projects_wf(project_views(projects@)),
    ensures
        d as int == field_demand(project_views(projects@), fid@, projects@.len() as int),
        0 <= d as int <= projects@.len() * 4_100_000_000_000,
{
    let n = projects.len();
    let mut d: i128 = 0;
    for i in 0..n
        invariant
            crate::models::all_projects_wf(project_views(projects@)),
            n == projects.len(),
            d as int == field_demand(project_views(projects@), fid@, i as int),
            0 <= d as int <= (i as int) * 4_100_000_000_000,
    {
        let p = &projects[i];
        assert(project_views(projects@)[i as int] == p@ && project_views(projects@)[i as int].wf());
        if crate::models::contains_id(&p.field_ids, fid) {
            let side = 2 * p.radius + PROJECT_GAP;
            proof {
                assert(0 <= (side as int) * (side as int) <= 4_100_000_000_000)
                    by (nonlinear_arith)
                    requires
                        0 <= side as int <= 2_000_015,
                ;
                assert((i as int) * 4_100_000_000_000 + 4_100_000_000_000 == (i as int + 1)
                    * 4_100_000_000_000) by (nonlinear_arith);
                assert((i as int + 1) * 4_100_000_000_000
                    <= 0x8000_0000_0000_0000_0000_0000_0000) by (nonlinear_arith)
                    requires
                        0 <= i as int + 1 <= 0x1_0000_0000_0000_0000,
                ;
            }
            d = d + (side as i128) * (side as i128);
        } else {
            proof {
                assert((i as int) * 4_100_000_000_000 <= (i as int + 1) * 4_100_000_000_000)
                    by (nonlinear_arith)
                    requires
                        i as int >= 0,
                ;
            }
        }
    }
    d
}

/// Grow every field whose members' footprint exceeds two fifths of its
/// area by thirty units, saturating at the radius limit.
pub fn expand_fields_for_projects(doc: &mut AppData)
    requires
        old(doc)@.wf(),
    ensures
        final(doc)@.wf(),
        final(doc)@.projects == old(doc)@.projects,
        final(doc)@.relations == old(doc)@.relations,
        final(doc)@.relation_tags == old(doc)@.relation_tags,
        final(doc)@.fields.len() == old(doc)@.fields.len(),
        forall|j: int|
            0 <= j < old(doc)@.fields.len() ==> #[trigger] final(doc)@.fields[j] == (FieldView {
                radius: expanded_radius(old(doc)@.projects, old(doc)@.fields[j]),
                ..old(doc)@.fields[j]
            }),
{
    let n = doc.fields.len();
    for j in 0..n
        invariant
            doc@.wf(),
            n == doc.fields.len(),
            doc@.projects == old(doc)@.projects,
            doc@.relations == old(doc)@.relations,
            doc@.relation_tags == old(doc)@.relation_tags,
            doc@.fields.len() == old(doc)@.fields.len(),
            forall|k: int|
                j <= k < n ==> #[trigger] doc@.fields[k] == old(doc)@.fields[k],
            forall|k: int|
                0 <= k < j ==> #[trigger] doc@.fields[k] == (FieldView {
                    radius: expanded_radius(old(doc)@.projects, old(doc)@.fields[k]),
                    ..old(doc)@.fields[k]
                }),
    {
        assert(doc@.fields[j as int] == doc.fields@[j as int]@ && doc@.fields[j as int].wf());
        let pn = doc.projects.len();
        assert(doc@.projects.len() == pn as int);
        let d = field_demand_exec(&doc.projects, &doc.fields[j].id);
        let r = doc.fields[j].radius;
        proof {
            assert(0 <= (r as i128) * (r as i128) <= 1_000_000_000_000) by (nonlinear_arith)
                requires
                    0 <= r as int <= 1_000_000,
            ;
            assert(doc@.projects.len() * 4_100_000_000_000
                <= 0x1000_0000_0000_0000_0000_0000_0000_0000) by (nonlinear_arith)
                requires
                    0 <= doc@.projects.len() <= 0x1_0000_0000_0000_0000,
            ;
        }
        if 5 * d > 8 * ((r as i128) * (r as i128)) {
            let grown = if r + 30 <= RADIUS_LIMIT {
                r + 30
            } else {
                RADIUS_LIMIT
            };
            let ghost before = doc@.fields;
            doc.fields[j].radius = grown;
            proof {
                assert(grown as int == expanded_radius(
                    old(doc)@.projects,
                    old(doc)@.fields[j as int],
                ));
                assert(doc.fields@[j as int]@ =~= (FieldView {
                    radius: expanded_radius(old(doc)@.projects, old(doc)@.fields[j as int]),
                    ..old(doc)@.fields[j as int]
                }));
                assert(doc@.fields =~= before.update(
                    j as int,
                    FieldView {
                        radius: expanded_radius(old(doc)@.projects, old(doc)@.fields[j as int]),
                        ..old(doc)@.fields[j as int]
                    },
                ));
            }
        }
    }
}

/// A project's footprint demand reads only radii and memberships, so any
/// relocation leaves it unchanged.
pub proof fn lemma_demand_ignores_positions(
    a: Seq<ProjectView>,
    b: Seq<ProjectView>,
    fid: Seq<char>,
    i: int,
)
    requires
        same_projects_but_positions(a, b),
        i <= a.len(),
    ensures
        field_demand(b, fid, i) == field_demand(a, fid, i),
    decreases i,
{
    if i > 0 {
        lemma_demand_ignores_positions(a, b, fid, i - 1);
        assert(b[i - 1] == a[i - 1].moved_to(b[i - 1].x, b[i - 1].y));
    }
}

/// Relocation composes: two successive per-project relocations are one.
pub proof fn lemma_same_projects_trans(a: Seq<ProjectView>, b: Seq<ProjectView>, c: Seq<ProjectView>)
    requires
        same_projects_but_positions(a, b),
        same_projects_but_positions(b, c),
    ensures
        same_projects_but_positions(a, c),
{
    assert forall|i: int| 0 <= i < a.len() implies (#[trigger] c[i]) == a[i].moved_to(
        c[i].x,
        c[i].y,
    ) by {
        assert(b[i] == a[i].moved_to(b[i].x, b[i].y));
        assert(c[i] == b[i].moved_to(c[i].x, c[i].y));
    }
}

/// The projects after the repair pass has processed the first `i` of
/// them: a project that is region-valid at its turn stays put; any other
/// moves to the nearest-position search's result for the document as
/// repaired so far (which is its own position again when both bounded
/// scans find nothing).
#[verifier::opaque]
pub open spec fn regions_pass(doc: DocView, i: int) -> Seq<ProjectView>
    decreases i,
{
    if i <= 0 {
        doc.projects
    } else {
        let prev = regions_pass(doc, i - 1);
        let p = prev[i - 1];
        if region_valid(doc.fields, p) {
            prev
        } else {
            let np = nearest_place(DocView { projects: prev, ..doc }, p);
            prev.update(i - 1, p.moved_to(np.0, np.1))
        }
    }
}

/// One step of the repair pass.
pub proof fn lemma_regions_pass_unfold(doc: DocView, i: int)
    requires
        i >= 1,
    ensures
        regions_pass(doc, i) == ({
            let prev = regions_pass(doc, i - 1);
            let p = prev[i - 1];
            if region_valid(doc.fields, p) {
                prev
            } else {
                let np = nearest_place(DocView { projects: prev, ..doc }, p);
                prev.update(i - 1, p.moved_to(np.0, np.1))
            }
        }),
{
    reveal_with_fuel(regions_pass, 2);
}

/// The repair pass starts from the document's own projects.
pub proof fn lemma_regions_pass_zero(doc: DocView)
    ensures
        regions_pass(doc, 0) == doc.projects,
{
    reveal_with_fuel(regions_pass, 1);
}

/// Whether the repair pass touched any of the first `i` projects: true
/// exactly when one of them was not region-valid at its turn.
#[verifier::opaque]
pub open spec fn pass_changed(doc: DocView, i: int) -> bool
    decreases i,
{
    if i <= 0 {
        false
    } else {
        pass_changed(doc, i - 1) || !region_valid(doc.fields, regions_pass(doc, i - 1)[i - 1])
    }
}

/// One step of the repair pass's change flag.
pub proof fn lemma_pass_changed_unfold(doc: DocView, i: int)
    requires
        i >= 1,
    ensures
        pass_changed(doc, i) == (pass_changed(doc, i - 1) || !region_valid(
            doc.fields,
            regions_pass(doc, i - 1)[i - 1],
        )),
{
    reveal_with_fuel(pass_changed, 2);
}

/// The repair pass has touched nothing before it starts.
pub proof fn lemma_pass_changed_zero(doc: DocView)
    ensures
        !pass_changed(doc, 0),
{
    reveal_with_fuel(pass_changed, 1);
}

/// Re-place every project whose position is no longer region-valid, using
/// the nearest-position search; projects already valid are untouched, and
/// a project whose search finds nothing keeps its position.
fn ensure_regions(doc: &mut AppData) -> (changed: bool)
    requires
        old(doc)@.wf(),
    ensures
        final(doc)@.wf(),
        final(doc)@.fields == old(doc)@.fields,
        final(doc)@.relations == old(doc)@.relations,
        final(doc)@.relation_tags == old(doc)@.relation_tags,
        same_projects_but_positions(old(doc)@.projects, final(doc)@.projects),
        final(doc)@.projects == regions_pass(old(doc)@, old(doc)@.projects.len() as int),
        changed == pass_changed(old(doc)@, old(doc)@.projects.len() as int),
        forall|i: int|
            0 <= i < final(doc)@.projects.len() ==> region_valid(
                final(doc)@.fields,
                #[trigger] final(doc)@.projects[i],
            ) || final(doc)@.projects[i] == old(doc)@.projects[i],
        forall|i: int|
            0 <= i < final(doc)@.projects.len() && region_valid(
                old(doc)@.fields,
                old(doc)@.projects[i],
            ) ==> #[trigger] final(doc)@.projects[i] == old(doc)@.projects[i],
        (exists|i: int|
            0 <= i < old(doc)@.projects.len() && !region_valid(
                old(doc)@.fields,
                #[trigger] old(doc)@.projects[i],
            )) ==> changed,
        (forall|i: int|
            0 <= i < old(doc)@.projects.len() ==> region_valid(
                old(doc)@.fields,
                #[trigger] old(doc)@.projects[i],
            )) ==> final(doc)@ == old(doc)@ && !changed,
        !changed ==> final(doc)@ == old(doc)@,
{
    let n = doc.projects.len();
    let mut changed = false;
    proof {
        lemma_regions_pass_zero(old(doc)@);
        lemma_pass_changed_zero(old(doc)@);
    }
    for i in 0..n
        invariant
            doc@.wf(),
            n == doc.projects.len(),
            doc@.fields == old(doc)@.fields,
            doc@.relations == old(doc)@.relations,
            doc@.relation_tags == old(doc)@.relation_tags,
            same_projects_but_positions(old(doc)@.projects, doc@.projects),
            doc@.projects == regions_pass(old(doc)@, i as int),
            changed == pass_changed(old(doc)@, i as int),
            forall|k: int| i <= k < n ==> #[trigger] doc@.projects[k] == old(doc)@.projects[k],
            forall|k: int|
                0 <= k < i ==> region_valid(doc@.fields, #[trigger] doc@.projects[k])
                    || doc@.projects[k] == old(doc)@.projects[k],
            forall|k: int|
                0 <= k < n && region_valid(old(doc)@.fields, old(doc)@.projects[k])
                    ==> #[trigger] doc@.projects[k] == old(doc)@.projects[k],
            !changed ==> forall|k: int|
                0 <= k < i ==> region_valid(old(doc)@.fields, #[trigger] old(doc)@.projects[k]),
            (forall|k: int|
                0 <= k < n ==> region_valid(
                    old(doc)@.fields,
                    #[trigger] old(doc)@.projects[k],
                )) ==> doc@ == old(doc)@ && !changed,
            !changed ==> doc@ == old(doc)@,
    {
        assert(doc@.projects[i as int] == doc.projects@[i as int]@
            && doc@.projects[i as int].wf());
        proof {
            lemma_regions_pass_unfold(old(doc)@, i as int + 1);
            lemma_pass_changed_unfold(old(doc)@, i as int + 1);
        }
        if !is_valid_region(&doc.projects[i], doc) {
            let np = nearest_valid_position(&doc.projects[i], doc);
            let ghost before = doc@.projects;
            proof {
                assert(doc@ =~= (DocView { projects: before, ..old(doc)@ }));
            }
            doc.projects[i].position = np;
            changed = true;
            proof {
                assert(doc.projects@[i as int]@ == old(doc)@.projects[i as int].moved_to(
                    np.0 as int,
                    np.1 as int,
                ));
                assert(doc@.projects =~= before.update(
                    i as int,
                    old(doc)@.projects[i as int].moved_to(np.0 as int, np.1 as int),
                ));
                assert(doc@.projects =~= regions_pass(old(doc)@, i as int + 1));
            }
        } else {
            proof {
                assert(doc@.projects =~= regions_pass(old(doc)@, i as int + 1));
            }
        }
    }
    proof {
        if changed {
        } else {
            assert forall|i: int| 0 <= i < old(doc)@.projects.len() implies region_valid(
                old(doc)@.fields,
                #[trigger] old(doc)@.projects[i],
            ) by {}
        }
    }
    changed
}

/// Fields may only have grown: same ids, names and centres, radii at
/// least what they were.
pub open spec fn fields_only_grown(a: Seq<FieldView>, b: Seq<FieldView>) -> bool {
    &&& a.len() == b.len()
    &&& forall|j: int|
        0 <= j < a.len() ==> (#[trigger] b[j]).id == a[j].id && b[j].x == a[j].x && b[j].y
            == a[j].y && b[j].radius >= a[j].radius
}

/// The grown field list: every field's radius stepped by
/// [`expanded_radius`] against the given projects.
pub open spec fn expanded_fields(fields: Seq<FieldView>, projects: Seq<ProjectView>) -> Seq<
    FieldView,
> {
    Seq::new(
        fields.len(),
        |j: int| FieldView { radius: expanded_radius(projects, fields[j]), ..fields[j] },
    )
}

/// The whole validator as a function of the document: the repair pass,
/// the relaxation run, and — when overlap persists — the field growth and
/// the second repair pass; paired with whether anything was altered.
pub open spec fn validate_spec(doc: DocView) -> (DocView, bool) {
    let n = doc.projects.len() as int;
    let mid = DocView { projects: regions_pass(doc, n), ..doc };
    let relaxed = DocView { projects: crate::relax::relax_iter(mid, 50), ..doc };
    if any_overlap(relaxed.projects, PROJECT_GAP as int) {
        let grown = DocView { fields: expanded_fields(relaxed.fields, relaxed.projects), ..relaxed };
        (DocView { projects: regions_pass(grown, n), ..grown }, true)
    } else {
        (relaxed, pass_changed(doc, n) || crate::relax::relax_pass(mid).1)
    }
}

/// Validate and repair the whole layout: restore region validity, relax
/// overlaps, and if overlap still persists grow the overfull fields and
/// restore region validity again.  Returns whether anything was altered;
/// any initially region-invalid project guarantees an alteration.
///
/// Every project ends region-valid under the final fields, or was
/// region-valid under the original fields when only the fields grew
/// around it, or sits exactly where the repair pass [`regions_pass`] put
/// it — which is its own prior position precisely when it was invalid and
/// both bounded scans of the nearest-position search found nothing.  A
/// field's radius either stays or takes one thirty-unit step, the latter
/// only when its members' footprint exceeds two fifths of its area.  A
/// settled document (see [`settled`]) is left untouched: validating twice
/// changes nothing the second time.
pub fn relax_and_validate(doc: &mut AppData) -> (changed: bool)
    requires
        old(doc)@.wf(),
    ensures
        final(doc)@.wf(),
        fields_only_grown(old(doc)@.fields, final(doc)@.fields),
        same_projects_but_positions(old(doc)@.projects, final(doc)@.projects),
        final(doc)@.relations == old(doc)@.relations,
        final(doc)@.relation_tags == old(doc)@.relation_tags,
        forall|i: int|
            0 <= i < final(doc)@.projects.len() ==> region_valid(
                final(doc)@.fields,
                #[trigger] final(doc)@.projects[i],
            ) || region_valid(old(doc)@.fields, final(doc)@.projects[i]) || final(doc)@.projects[i]
                == regions_pass(old(doc)@, old(doc)@.projects.len() as int)[i],
        forall|i: int|
            0 <= i < old(doc)@.projects.len() ==> region_valid(
                old(doc)@.fields,
                #[trigger] regions_pass(old(doc)@, old(doc)@.projects.len() as int)[i],
            ) || regions_pass(old(doc)@, old(doc)@.projects.len() as int)[i] == old(
                doc,
            )@.projects[i],
        forall|j: int|
            0 <= j < old(doc)@.fields.len() ==> (#[trigger] final(doc)@.fields[j]).radius == old(
                doc,
            )@.fields[j].radius || (final(doc)@.fields[j].radius == imin(
                old(doc)@.fields[j].radius + 30,
                RADIUS_LIMIT as int,
            ) && 5 * field_demand(
                old(doc)@.projects,
                old(doc)@.fields[j].id,
                old(doc)@.projects.len() as int,
            ) > 8 * sq(old(doc)@.fields[j].radius)),
        (exists|i: int|
            0 <= i < old(doc)@.projects.len() && !region_valid(
                old(doc)@.fields,
                #[trigger] old(doc)@.projects[i],
            )) ==> changed,
        final(doc)@ == validate_spec(old(doc)@).0,
        changed == validate_spec(old(doc)@).1,
        !changed ==> final(doc)@ == old(doc)@,
        settled(old(doc)@) ==> final(doc)@ == old(doc)@ && !changed,
{
    let ghost n = old(doc)@.projects.len() as int;
    let ghost pass = regions_pass(old(doc)@, old(doc)@.projects.len() as int);
    let mut changed = ensure_regions(doc);
    let ghost d1 = doc@;
    proof {
        assert(d1 =~= (DocView { projects: regions_pass(old(doc)@, n), ..old(doc)@ }));
    }
    let moved = relax(doc);
    if moved {
        changed = true;
    }
    let ghost d2 = doc@;
    proof {
        lemma_same_projects_trans(old(doc)@.projects, d1.projects, d2.projects);
        assert(d2 =~= (DocView { projects: crate::relax::relax_iter(d1, 50), ..old(doc)@ }));
    }
    let overlapping = any_project_overlap(doc, PROJECT_GAP);
    if overlapping {
        expand_fields_for_projects(doc);
        changed = true;
        let ghost d3 = doc@;
        proof {
            assert(d3.fields =~= expanded_fields(d2.fields, d2.projects));
            assert(d3 =~= (DocView { fields: expanded_fields(d2.fields, d2.projects), ..d2 }));
        }
        ensure_regions(doc);
        proof {
            assert(doc@ =~= (DocView { projects: regions_pass(d3, n), ..d3 }));
            assert(doc@ =~= validate_spec(old(doc)@).0);
            assert forall|i: int| 0 <= i < doc@.projects.len() implies region_valid(
                doc@.fields,
                #[trigger] doc@.projects[i],
            ) || region_valid(old(doc)@.fields, doc@.projects[i]) || doc@.projects[i]
                == pass[i] by {
                if !region_valid(doc@.fields, doc@.projects[i]) {
                    assert(doc@.projects[i] == d3.projects[i]);
                    assert(d3.projects[i] == d2.projects[i]);
                    if !region_valid(d2.fields, d2.projects[i]) {
                        assert(d2.projects[i] == d1.projects[i]);
                    }
                }
            }
            assert forall|j: int| 0 <= j < old(doc)@.fields.len() implies (
            #[trigger] doc@.fields[j]).radius == old(doc)@.fields[j].radius || (
            doc@.fields[j].radius == imin(old(doc)@.fields[j].radius + 30, RADIUS_LIMIT as int)
                && 5 * field_demand(
                old(doc)@.projects,
                old(doc)@.fields[j].id,
                old(doc)@.projects.len() as int,
            ) > 8 * sq(old(doc)@.fields[j].radius)) by {
                assert(d2.fields[j] == old(doc)@.fields[j]);
                assert(d3.fields[j] == (FieldView {
                    radius: expanded_radius(d2.projects, d2.fields[j]),
                    ..d2.fields[j]
                }));
                lemma_demand_ignores_positions(
                    old(doc)@.projects,
                    d2.projects,
                    old(doc)@.fields[j].id,
                    old(doc)@.projects.len() as int,
                );
                assert(doc@.fields[j] == d3.fields[j]);
            }
        }
    } else {
        proof {
            assert forall|i: int| 0 <= i < doc@.projects.len() implies region_valid(
                doc@.fields,
                #[trigger] doc@.projects[i],
            ) || region_valid(old(doc)@.fields, doc@.projects[i]) || doc@.projects[i]
                == pass[i] by {
                if !region_valid(doc@.fields, doc@.projects[i]) {
                    assert(doc@.projects[i] == d1.projects[i]);
                }
            }
        }
    }
    changed
}

/// The projects after the first `i` have been re-derived in insertion
/// order, each placed against the document as already updated for the
/// earlier ones.
#[verifier::opaque]
pub open spec fn recalc_pass(doc: DocView, i: int) -> Seq<ProjectView>
    decreases i,
{
    if i <= 0 {
        doc.projects
    } else {
        let prev = recalc_pass(doc, i - 1);
        let p = prev[i - 1];
        let np = crate::place::place_spec(DocView { projects: prev, ..doc }, p);
        prev.update(i - 1, p.moved_to(np.0, np.1))
    }
}

/// One step of the re-derivation pass.
pub proof fn lemma_recalc_pass_unfold(doc: DocView, i: int)
    requires
        i >= 1,
    ensures
        recalc_pass(doc, i) == ({
            let prev = recalc_pass(doc, i - 1);
            let p = prev[i - 1];
            let np = crate::place::place_spec(DocView { projects: prev, ..doc }, p);
            prev.update(i - 1, p.moved_to(np.0, np.1))
        }),
{
    reveal_with_fuel(recalc_pass, 2);
}

/// The re-derivation pass starts from the document's own projects.
pub proof fn lemma_recalc_pass_zero(doc: DocView)
    ensures
        recalc_pass(doc, 0) == doc.projects,
{
    reveal_with_fuel(recalc_pass, 1);
}

/// Re-derive every project's position from its memberships, in insertion
/// order; the result is exactly [`recalc_pass`] over the whole document.
pub fn recalculate_all_project_positions(doc: &mut AppData)
    requires
        old(doc)@.wf(),
    ensures
        final(doc)@.wf(),
        final(doc)@.fields == old(doc)@.fields,
        final(doc)@.relations == old(doc)@.relations,
        final(doc)@.relation_tags == old(doc)@.relation_tags,
        same_projects_but_positions(old(doc)@.projects, final(doc)@.projects),
        final(doc)@.projects == recalc_pass(old(doc)@, old(doc)@.projects.len() as int),
{
    let n = doc.projects.len();
    proof {
        lemma_recalc_pass_zero(old(doc)@);
    }
    for i in 0..n
        invariant
            doc@.wf(),
            n == doc.projects.len(),
            doc@.fields == old(doc)@.fields,
            doc@.relations == old(doc)@.relations,
            doc@.relation_tags == old(doc)@.relation_tags,
            same_projects_but_positions(old(doc)@.projects, doc@.projects),
            doc@.projects == recalc_pass(old(doc)@, i as int),
    {
        assert(doc@.projects[i as int] == doc.projects@[i as int]@
            && doc@.projects[i as int].wf());
        proof {
            lemma_recalc_pass_unfold(old(doc)@, i as int + 1);
        }
        let np = compute_position(&doc.projects[i], doc);
        let ghost before = doc@.projects;
        proof {
            assert(doc@ =~= (DocView { projects: before, ..old(doc)@ }));
        }
        doc.projects[i].position = np;
        proof {
            assert(doc@.projects =~= before.update(
                i as int,
                before[i as int].moved_to(np.0 as int, np.1 as int),
            ));
            assert(doc@.projects =~= recalc_pass(old(doc)@, i as int + 1));
        }
    }
}

/// The deterministic jitter a seed gives the project at index `idx`:
/// about half of a two-digit residue, centred on zero.
pub open spec fn jitter_of(seed: u64, idx: u64) -> (int, int) {
    let js: u64 = if seed + idx > u64::MAX {
        (seed + idx - 0x1_0000_0000_0000_0000) as u64
    } else {
        (seed + idx) as u64
    };
    (tdiv(js as int % 100 - 50, 2), tdiv((js as int / 100) % 100 - 50, 2))
}

/// The projects after the first `i` have been nudged by their seed-derived
/// jitter and re-derived, in insertion order.
#[verifier::opaque]
pub open spec fn jitter_pass(doc: DocView, seed: u64, i: int) -> Seq<ProjectView>
    decreases i,
{
    if i <= 0 {
        doc.projects
    } else {
        let prev = jitter_pass(doc, seed, i - 1);
        let p = prev[i - 1];
        let j = jitter_of(seed, (i - 1) as u64);
        let cl = COORD_LIMIT as int;
        let jp = p.moved_to(clamp(p.x + j.0, -cl, cl), clamp(p.y + j.1, -cl, cl));
        let mid = prev.update(i - 1, jp);
        let np = crate::place::place_spec(DocView { projects: mid, ..doc }, jp);
        mid.update(i - 1, jp.moved_to(np.0, np.1))
    }
}

/// One step of the jittered re-derivation pass.
pub proof fn lemma_jitter_pass_unfold(doc: DocView, seed: u64, i: int)
    requires
        i >= 1,
    ensures
        jitter_pass(doc, seed, i) == ({
            let prev = jitter_pass(doc, seed, i - 1);
            let p = prev[i - 1];
            let j = jitter_of(seed, (i - 1) as u64);
            let cl = COORD_LIMIT as int;
            let jp = p.moved_to(clamp(p.x + j.0, -cl, cl), clamp(p.y + j.1, -cl, cl));
            let mid = prev.update(i - 1, jp);
            let np = crate::place::place_spec(DocView { projects: mid, ..doc }, jp);
            mid.update(i - 1, jp.moved_to(np.0, np.1))
        }),
{
    reveal_with_fuel(jitter_pass, 2);
}

/// The jittered pass starts from the document's own projects.
pub proof fn lemma_jitter_pass_zero(doc: DocView, seed: u64)
    ensures
        jitter_pass(doc, seed, 0) == doc.projects,
{
    reveal_with_fuel(jitter_pass, 1);
}

/// Re-derive every position after nudging each project by a small
/// seed-derived jitter, so that a re-layout after reordering does not pile
/// equal positions on top of each other.  The caller supplies the seed,
/// keeping the function deterministic: the result is exactly
/// [`jitter_pass`] of the seed and the document.
pub fn recalculate_all_project_positions_with_jitter(doc: &mut AppData, seed: u64)
    requires
        old(doc)@.wf(),
    ensures
        final(doc)@.wf(),
        final(doc)@.fields == old(doc)@.fields,
        final(doc)@.relations == old(doc)@.relations,
        final(doc)@.relation_tags == old(doc)@.relation_tags,
        same_projects_but_positions(old(doc)@.projects, final(doc)@.projects),
        final(doc)@.projects == jitter_pass(old(doc)@, seed, old(doc)@.projects.len() as int),
{
    let n = doc.projects.len();
    proof {
        lemma_jitter_pass_zero(old(doc)@, seed);
    }
    for i in 0..n
        invariant
            doc@.wf(),
            n == doc.projects.len(),
            doc@.fields == old(doc)@.fields,
            doc@.relations == old(doc)@.relations,
            doc@.relation_tags == old(doc)@.relation_tags,
            same_projects_but_positions(old(doc)@.projects, doc@.projects),
            doc@.projects == jitter_pass(old(doc)@, seed, i as int),
    {
        proof {
            lemma_jitter_pass_unfold(old(doc)@, seed, i as int + 1);
        }
        let js = seed.wrapping_add(i as u64);
        let jx = tdiv_i64((js % 100) as i64 - 50, 2);
        let jy = tdiv_i64(((js / 100) % 100) as i64 - 50, 2);
        proof {
            assert((jx as int, jy as int) == jitter_of(seed, i as u64));
        }
        assert(doc@.projects[i as int] == doc.projects@[i as int]@
            && doc@.projects[i as int].wf());
        let px = doc.projects[i].position.0;
        let py = doc.projects[i].position.1;
        let nx = clamp_i64(px + jx, -COORD_LIMIT, COORD_LIMIT);
        let ny = clamp_i64(py + jy, -COORD_LIMIT, COORD_LIMIT);
        let ghost before = doc@.projects;
        doc.projects[i].position = (nx, ny);
        proof {
            assert(doc@.projects =~= before.update(
                i as int,
                before[i as int].moved_to(nx as int, ny as int),
            ));
        }
        assert(doc@.projects[i as int] == doc.projects@[i as int]@
            && doc@.projects[i as int].wf());
        let np = compute_position(&doc.projects[i], doc);
        let ghost mid = doc@.projects;
        proof {
            assert(doc@ =~= (DocView { projects: mid, ..old(doc)@ }));
        }
        doc.projects[i].position = np;
        proof {
            assert(doc@.projects =~= mid.update(
                i as int,
                mid[i as int].moved_to(np.0 as int, np.1 as int),
            ));
            assert(doc@.projects =~= jitter_pass(old(doc)@, seed, i as int + 1));
        }
    }
}

} // verus!
