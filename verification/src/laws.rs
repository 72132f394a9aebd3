//! The geometric guarantees of a region-valid layout, stated over plain
//! squared distances.
//!
//! [`crate::validate::relax_and_validate`] ensures that afterwards every
//! project is region-valid under the document's fields, or under the
//! pre-growth fields when only the fields grew around it, or sits exactly
//! where the pinned repair pass [`crate::validate::regions_pass`] put it —
//! its own prior position precisely when it was invalid and both bounded
//! scans of the nearest-position search found nothing.  These lemmas
//! spell out what region
//! validity means for each placed project: containment in each member
//! field, exclusion from every non-member field, and full exclusion for a
//! membership-less project.  The fixed-point law — validating an already
//! settled document changes nothing, so a second validation of a valid
//! document is a no-op — is stated directly on `relax_and_validate` and
//! [`crate::relax::relax`].  Determinism of placement is stated on
//! [`crate::place::compute_position`]: its result equals
//! [`crate::place::place_spec`], a function of the document and project
//! views alone.

use crate::geom::{dist2, sq, MEMBER_MARGIN};
use crate::models::{id_in, FieldView, ProjectView};
use crate::region::{field_rule_ok, region_valid};
use vstd::prelude::*;

verus! {

/// Containment law: a region-valid project with exactly one membership
/// lies fully inside that field's circle — the distance from the field's
/// centre plus the project's radius stays at least the member margin short
/// of the field's radius.
pub proof fn lemma_single_membership_containment(
    fields: Seq<FieldView>,
    p: ProjectView,
    j: int,
)
    requires
        region_valid(fields, p),
        p.field_ids.len() == 1,
        0 <= j < fields.len(),
        fields[j].id == p.field_ids[0],
    ensures
        fields[j].radius - MEMBER_MARGIN as int - p.radius >= 0,
        dist2(p.x, p.y, fields[j].x, fields[j].y) <= sq(
            fields[j].radius - MEMBER_MARGIN as int - p.radius,
        ),
{
    assert(id_in(p.field_ids, fields[j].id));
    assert(field_rule_ok(fields[j], p.field_ids, p.x, p.y, p.radius, MEMBER_MARGIN as int));
}

/// Exclusion law: a region-valid project is fully disjoint from every
/// field it does not belong to — the distance between the centres is at
/// least the sum of the two radii.
pub proof fn lemma_exclusion(fields: Seq<FieldView>, p: ProjectView, j: int)
    requires
        region_valid(fields, p),
        0 <= j < fields.len(),
        !id_in(p.field_ids, fields[j].id),
    ensures
        dist2(p.x, p.y, fields[j].x, fields[j].y) >= sq(fields[j].radius + p.radius),
{
    assert(field_rule_ok(fields[j], p.field_ids, p.x, p.y, p.radius, MEMBER_MARGIN as int));
}

/// No-membership law: a region-valid project with an empty membership
/// list is fully disjoint from every field circle.
pub proof fn lemma_no_membership_outside(fields: Seq<FieldView>, p: ProjectView)
    requires
        region_valid(fields, p),
        p.field_ids.len() == 0,
    ensures
        forall|j: int|
            0 <= j < fields.len() ==> dist2(p.x, p.y, (#[trigger] fields[j]).x, fields[j].y) >= sq(
                fields[j].radius + p.radius,
            ),
{
    assert forall|j: int|
        0 <= j < fields.len() implies dist2(p.x, p.y, (#[trigger] fields[j]).x, fields[j].y) >= sq(
        fields[j].radius + p.radius,
    ) by {
        assert(field_rule_ok(fields[j], p.field_ids, p.x, p.y, p.radius, MEMBER_MARGIN as int));
    }
}

} // verus!
