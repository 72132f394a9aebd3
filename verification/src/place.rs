//! Placement search.
//!
//! Finds a position for a project, tiered by how many of its memberships
//! resolve to live fields: no memberships (or only dangling ones) place the
//! node outside every field, a single membership spreads nodes inside that
//! field, several memberships anchor the node in the fields' intersection.
//! Every tier samples candidates along a deterministic golden-angle spiral
//! and falls back to a well-defined point when the attempt budget runs
//! out, so a position is always produced.

use crate::geom::{
    clamp, clamp_i64, dist2, dist2_i64, imax, imin, isqrt, lemma_muldiv_bound, mag, muldiv,
    muldiv_i64, rot_step, spiral_dir, spiral_radius, spiral_step_radius, sq, sqrt_floor, tdiv,
    COORD_LIMIT, GEOM_BOUND, MEMBER_MARGIN, PROJECT_GAP, RADIUS_LIMIT,
};
use crate::models::{
    contains_id, find_field_index, id_in, unique_field_ids, AppData, DocView, FieldView, Project,
    ProjectView,
};
use crate::region::{
    arrow_clear, arrow_clear_at, circle_outside, circle_within, clear_of_projects,
    clear_of_projects_at, field_rule_ok, outside_field, position_free, region_ok, region_ok_at,
    region_valid, within_field,
};
use vstd::prelude::*;

verus! {

/// Far corner of the bounding box of the first `i` fields, folded from
/// the origin.
pub open spec fn bb_corner(fields: Seq<FieldView>, i: int) -> (int, int)
    decreases i,
{
    if i <= 0 {
        (0, 0)
    } else {
        let p = bb_corner(fields, i - 1);
        let f = fields[i - 1];
        (imax(p.0, f.x + f.radius), imax(p.1, f.y + f.radius))
    }
}

/// Where the search for a field-less project starts: fifty units beyond
/// the bounding box of all fields.
pub open spec fn outfield_start(fields: Seq<FieldView>) -> (int, int) {
    let c = bb_corner(fields, fields.len() as int);
    (
        clamp(c.0 + 50, -(COORD_LIMIT as int), COORD_LIMIT as int),
        clamp(c.1 + 50, -(COORD_LIMIT as int), COORD_LIMIT as int),
    )
}

/// There is a field with this id.
pub open spec fn has_field(fields: Seq<FieldView>, id: Seq<char>) -> bool {
    exists|i: int| 0 <= i < fields.len() && fields[i].id == id
}

/// Index of the field with this id (unique in a well-formed document).
pub open spec fn field_idx(fields: Seq<FieldView>, id: Seq<char>) -> int {
    choose|i: int| 0 <= i < fields.len() && fields[i].id == id
}

/// Field indices that a membership list resolves to, in list order,
/// duplicates kept; dangling ids are skipped.
pub open spec fn resolved_targets(fields: Seq<FieldView>, ids: Seq<Seq<char>>) -> Seq<int>
    decreases ids.len(),
{
    if ids.len() == 0 {
        Seq::empty()
    } else {
        let rest = resolved_targets(fields, ids.drop_last());
        if has_field(fields, ids.last()) {
            rest.push(field_idx(fields, ids.last()))
        } else {
            rest
        }
    }
}

pub proof fn lemma_resolved_targets(fields: Seq<FieldView>, ids: Seq<Seq<char>>)
    ensures
        forall|k: int|
            0 <= k < resolved_targets(fields, ids).len() ==> 0 <= #[trigger] resolved_targets(
                fields,
                ids,
            )[k] < fields.len(),
        resolved_targets(fields, ids).len() == 0 ==> forall|i: int|
            0 <= i < ids.len() ==> !has_field(fields, #[trigger] ids[i]),
    decreases ids.len(),
{
    if ids.len() != 0 {
        lemma_resolved_targets(fields, ids.drop_last());
        let rest = resolved_targets(fields, ids.drop_last());
        if has_field(fields, ids.last()) {
            let j = field_idx(fields, ids.last());
            assert(0 <= j < fields.len());
        }
        assert(forall|i: int| 0 <= i < ids.len() - 1 ==> ids.drop_last()[i] == #[trigger] ids[i]);
    }
}

/// Sum of the centres of the first `i` resolved target fields.
pub open spec fn targets_sum(fields: Seq<FieldView>, ts: Seq<int>, i: int) -> (int, int)
    decreases i,
{
    if i <= 0 {
        (0, 0)
    } else {
        let p = targets_sum(fields, ts, i - 1);
        let f = fields[ts[i - 1]];
        (p.0 + f.x, p.1 + f.y)
    }
}

/// Centre of gravity of the resolved target fields (duplicates counted),
/// rounding toward zero.
pub open spec fn targets_centroid(fields: Seq<FieldView>, ts: Seq<int>) -> (int, int)
    recommends
        ts.len() > 0,
{
    let s = targets_sum(fields, ts, ts.len() as int);
    (tdiv(s.0, ts.len() as int), tdiv(s.1, ts.len() as int))
}

/// Smallest radius among the resolved target fields.
pub open spec fn targets_min_radius(fields: Seq<FieldView>, ts: Seq<int>, i: int) -> int
    decreases i,
{
    if i <= 1 {
        fields[ts[0]].radius
    } else {
        imin(targets_min_radius(fields, ts, i - 1), fields[ts[i - 1]].radius)
    }
}

/// The second search start used by the nearest-position search: a point
/// six tenths of the smallest target radius from the targets' centroid,
/// in the direction of the project's current position.
pub open spec fn edge_start(fields: Seq<FieldView>, ts: Seq<int>, px: int, py: int) -> (int, int)
    recommends
        ts.len() > 0,
{
    let c = targets_centroid(fields, ts);
    let mr = targets_min_radius(fields, ts, ts.len() as int);
    let len = sqrt_floor(dist2(px, py, c.0, c.1));
    let cl = COORD_LIMIT as int;
    if len == 0 {
        (clamp(c.0 + 6 * mr / 10, -cl, cl), clamp(c.1, -cl, cl))
    } else {
        (
            clamp(c.0 + muldiv(px - c.0, 6 * mr, 10 * len), -cl, cl),
            clamp(c.1 + muldiv(py - c.1, 6 * mr, 10 * len), -cl, cl),
        )
    }
}

/// The `k`-th sample point of a golden-angle spiral around `(sx, sy)`,
/// clamped into the coordinate range.
pub open spec fn spiral_point(sx: int, sy: int, k: nat, scale: int) -> (int, int) {
    let d = spiral_dir(k);
    let r = spiral_radius(k as int, scale);
    let cl = COORD_LIMIT as int;
    (clamp(sx + muldiv(d.0, r, 1000), -cl, cl), clamp(sy + muldiv(d.1, r, 1000), -cl, cl))
}

/// Compute the `k`-th spiral sample around `(sx, sy)`; `(dx, dy)` must be
/// the `k`-th spiral direction, maintained incrementally by the caller.
fn spiral_point_at(sx: i64, sy: i64, dx: i64, dy: i64, k: i64, scale: i64) -> (c: (i64, i64))
    requires
        mag(sx as int) <= COORD_LIMIT as int,
        mag(sy as int) <= COORD_LIMIT as int,
        0 <= k <= 1000,
        0 <= scale <= 10,
        (dx as int, dy as int) == spiral_dir(k as nat),
    ensures
        (c.0 as int, c.1 as int) == spiral_point(sx as int, sy as int, k as nat, scale as int),
        mag(c.0 as int) <= COORD_LIMIT as int,
        mag(c.1 as int) <= COORD_LIMIT as int,
{
    proof {
        crate::geom::lemma_spiral_dir_bounds(k as nat);
    }
    let r = spiral_step_radius(k, scale);
    proof {
        lemma_muldiv_bound(dx as int, r as int, 1000, 1200, 400);
        lemma_muldiv_bound(dy as int, r as int, 1000, 1200, 400);
    }
    let ox = muldiv_i64(dx, r, 1000);
    let oy = muldiv_i64(dy, r, 1000);
    (clamp_i64(sx + ox, -COORD_LIMIT, COORD_LIMIT), clamp_i64(sy + oy, -COORD_LIMIT, COORD_LIMIT))
}

/// Far corner of the fields' bounding box, plus the fifty-unit offset.
fn outfield_start_point(doc: &AppData) -> (s: (i64, i64))
    requires
        doc@.wf(),
    ensures
        (s.0 as int, s.1 as int) == outfield_start(doc@.fields),
        mag(s.0 as int) <= COORD_LIMIT as int,
        mag(s.1 as int) <= COORD_LIMIT as int,
{
    let n = doc.fields.len();
    let mut mx: i64 = 0;
    let mut my: i64 = 0;
    for j in 0..n
        invariant
            doc@.wf(),
            n == doc.fields.len(),
            (mx as int, my as int) == bb_corner(doc@.fields, j as int),
            mag(mx as int) <= 11_000_000,
            mag(my as int) <= 11_000_000,
    {
        let f = &doc.fields[j];
        assert(doc@.fields[j as int] == f@ && doc@.fields[j as int].wf());
        let ex = f.position.0 + f.radius;
        let ey = f.position.1 + f.radius;
        if ex > mx {
            mx = ex;
        }
        if ey > my {
            my = ey;
        }
    }
    (clamp_i64(mx + 50, -COORD_LIMIT, COORD_LIMIT), clamp_i64(my + 50, -COORD_LIMIT, COORD_LIMIT))
}

/// Resolve a membership list to field indices, skipping dangling ids.
fn resolve_targets(doc: &AppData, ids: &Vec<String>) -> (ts: Vec<usize>)
    requires
        doc@.wf(),
    ensures
        ts@.map_values(|u: usize| u as int) == resolved_targets(doc@.fields, ids.deep_view()),
        forall|k: int| 0 <= k < ts@.len() ==> (#[trigger] ts@[k]) < doc.fields.len(),
{
    let n = ids.len();
    let mut ts: Vec<usize> = Vec::new();
    assert(ts@.map_values(|u: usize| u as int) =~= resolved_targets(
        doc@.fields,
        ids.deep_view().take(0),
    ));
    for k in 0..n
        invariant
            doc@.wf(),
            n == ids.len(),
            ids.deep_view().len() == n,
            ts@.map_values(|u: usize| u as int) == resolved_targets(
                doc@.fields,
                ids.deep_view().take(k as int),
            ),
            forall|k0: int| 0 <= k0 < ts@.len() ==> (#[trigger] ts@[k0]) < doc.fields.len(),
    {
        let ghost pre = ids.deep_view().take(k as int);
        let ghost now = ids.deep_view().take(k as int + 1);
        proof {
            assert(now.drop_last() =~= pre);
            assert(now.last() == ids.deep_view()[k as int]);
            assert(ids.deep_view()[k as int] == ids@[k as int]@);
        }
        match find_field_index(&doc.fields, &ids[k]) {
            Some(i) => {
                proof {
                    assert(doc@.fields[i as int].id == ids.deep_view()[k as int]);
                    assert(has_field(doc@.fields, now.last()));
                    let c = field_idx(doc@.fields, now.last());
                    if c != i as int {
                        assert(doc@.fields[c].id == doc@.fields[i as int].id);
                    }
                }
                ts.push(i);
                proof {
                    assert(ts@.map_values(|u: usize| u as int) =~= resolved_targets(
                        doc@.fields,
                        now,
                    ));
                }
            },
            None => {
                proof {
                    if has_field(doc@.fields, now.last()) {
                        let c = field_idx(doc@.fields, now.last());
                        assert(doc@.fields[c].id == ids.deep_view()[k as int]);
                    }
                    assert(ts@.map_values(|u: usize| u as int) =~= resolved_targets(
                        doc@.fields,
                        now,
                    ));
                }
            },
        }
    }
    proof {
        assert(ids.deep_view().take(n as int) =~= ids.deep_view());
    }
    ts
}

/// Centroid of the resolved target fields.
fn centroid_point(doc: &AppData, ts: &Vec<usize>) -> (c: (i64, i64))
    requires
        doc@.wf(),
        ts@.len() > 0,
        forall|k: int| 0 <= k < ts@.len() ==> (#[trigger] ts@[k]) < doc.fields.len(),
    ensures
        (c.0 as int, c.1 as int) == targets_centroid(
            doc@.fields,
            ts@.map_values(|u: usize| u as int),
        ),
        mag(c.0 as int) <= COORD_LIMIT as int,
        mag(c.1 as int) <= COORD_LIMIT as int,
{
    let ghost tseq = ts@.map_values(|u: usize| u as int);
    let n = ts.len();
    let mut sx: i128 = 0;
    let mut sy: i128 = 0;
    for k in 0..n
        invariant
            doc@.wf(),
            n == ts@.len(),
            tseq == ts@.map_values(|u: usize| u as int),
            forall|k0: int| 0 <= k0 < ts@.len() ==> (#[trigger] ts@[k0]) < doc.fields.len(),
            (sx as int, sy as int) == targets_sum(doc@.fields, tseq, k as int),
            mag(sx as int) <= (k as int) * (COORD_LIMIT as int),
            mag(sy as int) <= (k as int) * (COORD_LIMIT as int),
    {
        let f = &doc.fields[ts[k]];
        proof {
            assert(tseq[k as int] == ts@[k as int] as int);
            assert(doc@.fields[ts@[k as int] as int] == f@ && doc@.fields[ts@[k as int] as int].wf());
            assert((k as int) * (COORD_LIMIT as int) + COORD_LIMIT as int == (k as int + 1) * (
            COORD_LIMIT as int)) by (nonlinear_arith);
        }
        sx = sx + f.position.0 as i128;
        sy = sy + f.position.1 as i128;
    }
    proof {
        assert((n as int) * (COORD_LIMIT as int) > 0) by (nonlinear_arith)
            requires
                n as int >= 1,
        ;
    }
    let cx = div_centroid(sx, n);
    let cy = div_centroid(sy, n);
    proof {
        vstd::arithmetic::div_mod::lemma_div_is_ordered(
            mag(sx as int),
            (n as int) * (COORD_LIMIT as int),
            n as int,
        );
        vstd::arithmetic::div_mod::lemma_div_multiples_vanish(COORD_LIMIT as int, n as int);
        assert((n as int) * (COORD_LIMIT as int) == (COORD_LIMIT as int) * (n as int))
            by (nonlinear_arith);
        vstd::arithmetic::div_mod::lemma_div_is_ordered(
            mag(sy as int),
            (n as int) * (COORD_LIMIT as int),
            n as int,
        );
    }
    (cx, cy)
}

/// Signed 128-bit division rounding toward zero, for centroid sums.
fn div_centroid(s: i128, n: usize) -> (r: i64)
    requires
        n > 0,
        mag(s as int) <= (n as int) * (COORD_LIMIT as int),
    ensures
        r as int == tdiv(s as int, n as int),
        mag(r as int) == mag(s as int) / (n as int),
{
    let m: i128 = if s >= 0 {
        s
    } else {
        -s
    };
    let q: i128 = m / (n as i128);
    proof {
        crate::geom::lemma_tdiv_mag(s as int, n as int);
        vstd::arithmetic::div_mod::lemma_div_pos_is_pos(mag(s as int), n as int);
        vstd::arithmetic::div_mod::lemma_div_is_ordered(
            mag(s as int),
            (n as int) * (COORD_LIMIT as int),
            n as int,
        );
        assert((n as int) * (COORD_LIMIT as int) == (COORD_LIMIT as int) * (n as int))
            by (nonlinear_arith);
        vstd::arithmetic::div_mod::lemma_div_multiples_vanish(COORD_LIMIT as int, n as int);
    }
    if s >= 0 {
        q as i64
    } else {
        -(q as i64)
    }
}

/// Smallest radius among the resolved target fields.
fn min_target_radius(doc: &AppData, ts: &Vec<usize>) -> (r: i64)
    requires
        doc@.wf(),
        ts@.len() > 0,
        forall|k: int| 0 <= k < ts@.len() ==> (#[trigger] ts@[k]) < doc.fields.len(),
    ensures
        r as int == targets_min_radius(
            doc@.fields,
            ts@.map_values(|u: usize| u as int),
            ts@.len() as int,
        ),
        0 <= r <= RADIUS_LIMIT,
{
    let ghost tseq = ts@.map_values(|u: usize| u as int);
    proof {
        assert(tseq[0] == ts@[0] as int);
        assert(doc@.fields[tseq[0]].wf());
    }
    let mut r: i64 = doc.fields[ts[0]].radius;
    let n = ts.len();
    for k in 1..n
        invariant
            doc@.wf(),
            n == ts@.len(),
            1 <= n,
            tseq == ts@.map_values(|u: usize| u as int),
            forall|k0: int| 0 <= k0 < ts@.len() ==> (#[trigger] ts@[k0]) < doc.fields.len(),
            r as int == targets_min_radius(doc@.fields, tseq, k as int),
            0 <= r <= RADIUS_LIMIT,
    {
        proof {
            assert(tseq[k as int] == ts@[k as int] as int);
            assert(doc@.fields[tseq[k as int]].wf());
        }
        let fr = doc.fields[ts[k]].radius;
        if fr < r {
            r = fr;
        }
    }
    r
}

/// Every id that resolves contributes its field's index to the target
/// list.
pub proof fn lemma_resolved_contains(fields: Seq<FieldView>, ids: Seq<Seq<char>>, i: int)
    requires
        0 <= i < ids.len(),
        has_field(fields, ids[i]),
    ensures
        resolved_targets(fields, ids).contains(field_idx(fields, ids[i])),
    decreases ids.len(),
{
    let rest = resolved_targets(fields, ids.drop_last());
    if i == ids.len() - 1 {
        assert(ids.last() == ids[i]);
        let full = rest.push(field_idx(fields, ids[i]));
        assert(full[full.len() - 1] == field_idx(fields, ids[i]));
    } else {
        assert(ids.drop_last()[i] == ids[i]);
        lemma_resolved_contains(fields, ids.drop_last(), i);
        let k = choose|k: int| 0 <= k < rest.len() && rest[k] == field_idx(fields, ids[i]);
        if has_field(fields, ids.last()) {
            let full = rest.push(field_idx(fields, ids.last()));
            assert(full[k] == field_idx(fields, ids[i]));
        }
    }
}

/// In a document with unique field ids, a field named by the membership
/// list appears in the resolved target list.
pub proof fn lemma_member_in_targets(fields: Seq<FieldView>, ids: Seq<Seq<char>>, j: int)
    requires
        unique_field_ids(fields),
        0 <= j < fields.len(),
        id_in(ids, fields[j].id),
    ensures
        resolved_targets(fields, ids).contains(j),
{
    let i = choose|i: int| 0 <= i < ids.len() && ids[i] == fields[j].id;
    assert(has_field(fields, ids[i]));
    lemma_resolved_contains(fields, ids, i);
    let c = field_idx(fields, ids[i]);
    assert(0 <= c < fields.len() && fields[c].id == ids[i]);
    if c != j {
        assert(fields[c].id == fields[j].id);
    }
}

/// Every field whose index the target list holds is named by the
/// membership list.
pub proof fn lemma_target_is_member(fields: Seq<FieldView>, ids: Seq<Seq<char>>, k: int)
    requires
        0 <= k < resolved_targets(fields, ids).len(),
    ensures
        0 <= resolved_targets(fields, ids)[k] < fields.len(),
        id_in(ids, fields[resolved_targets(fields, ids)[k]].id),
    decreases ids.len(),
{
    lemma_resolved_targets(fields, ids);
    let rest = resolved_targets(fields, ids.drop_last());
    if ids.len() != 0 {
        if k < rest.len() {
            lemma_target_is_member(fields, ids.drop_last(), k);
            let f = fields[resolved_targets(fields, ids)[k]];
            let i = choose|i: int| 0 <= i < ids.drop_last().len() && ids.drop_last()[i] == f.id;
            assert(ids[i] == f.id);
        } else {
            assert(has_field(fields, ids.last()));
            let c = field_idx(fields, ids.last());
            assert(fields[c].id == ids.last());
            assert(ids[ids.len() - 1] == ids.last());
        }
    }
}

/// Whether every field but the one at index `t` lies fully clear of the
/// circle at `(x, y)`.
fn others_outside(doc: &AppData, t: usize, x: i64, y: i64, pr: i64) -> (b: bool)
    requires
        doc@.wf(),
        t < doc.fields.len(),
        mag(x as int) <= 10 * GEOM_BOUND as int,
        mag(y as int) <= 10 * GEOM_BOUND as int,
        0 <= pr <= RADIUS_LIMIT,
    ensures
        b == forall|j: int|
            0 <= j < doc@.fields.len() && j != t as int ==> outside_field(
                #[trigger] doc@.fields[j],
                x as int,
                y as int,
                pr as int,
            ),
{
    let n = doc.fields.len();
    for j in 0..n
        invariant
            doc@.wf(),
            n == doc.fields.len(),
            t < n,
            mag(x as int) <= 10 * GEOM_BOUND as int,
            mag(y as int) <= 10 * GEOM_BOUND as int,
            0 <= pr <= RADIUS_LIMIT,
            forall|k: int|
                0 <= k < j && k != t as int ==> outside_field(
                    #[trigger] doc@.fields[k],
                    x as int,
                    y as int,
                    pr as int,
                ),
    {
        if j != t {
            let f = &doc.fields[j];
            assert(doc@.fields[j as int] == f@ && doc@.fields[j as int].wf());
            if !circle_outside(f.position.0, f.position.1, f.radius, x, y, pr) {
                return false;
            }
        }
    }
    true
}

/// Whether the circle at `(x, y)` lies inside every resolved target
/// field, `margin` units clear of each rim.
fn targets_within(doc: &AppData, ts: &Vec<usize>, x: i64, y: i64, pr: i64, margin: i64) -> (b: bool)
    requires
        doc@.wf(),
        forall|k: int| 0 <= k < ts@.len() ==> (#[trigger] ts@[k]) < doc.fields.len(),
        mag(x as int) <= 10 * GEOM_BOUND as int,
        mag(y as int) <= 10 * GEOM_BOUND as int,
        0 <= pr <= RADIUS_LIMIT,
        0 <= margin <= 1000,
    ensures
        b == forall|k: int|
            0 <= k < ts@.len() ==> crate::region::within_field(
                doc@.fields[#[trigger] ts@[k] as int],
                x as int,
                y as int,
                pr as int,
                margin as int,
            ),
{
    let n = ts.len();
    for k in 0..n
        invariant
            doc@.wf(),
            n == ts@.len(),
            forall|k0: int| 0 <= k0 < ts@.len() ==> (#[trigger] ts@[k0]) < doc.fields.len(),
            mag(x as int) <= 10 * GEOM_BOUND as int,
            mag(y as int) <= 10 * GEOM_BOUND as int,
            0 <= pr <= RADIUS_LIMIT,
            0 <= margin <= 1000,
            forall|k0: int|
                0 <= k0 < k ==> crate::region::within_field(
                    doc@.fields[#[trigger] ts@[k0] as int],
                    x as int,
                    y as int,
                    pr as int,
                    margin as int,
                ),
    {
        let f = &doc.fields[ts[k]];
        assert(doc@.fields[ts@[k as int] as int] == f@ && doc@.fields[ts@[k as int] as int].wf());
        if !crate::region::circle_within(f.position.0, f.position.1, f.radius, x, y, pr, margin) {
            return false;
        }
    }
    true
}

/// Whether the circle at `(x, y)` lies fully outside every field the
/// membership list does not name.
fn nonmembers_outside(doc: &AppData, ids: &Vec<String>, x: i64, y: i64, pr: i64) -> (b: bool)
    requires
        doc@.wf(),
        mag(x as int) <= 10 * GEOM_BOUND as int,
        mag(y as int) <= 10 * GEOM_BOUND as int,
        0 <= pr <= RADIUS_LIMIT,
    ensures
        b == forall|j: int|
            0 <= j < doc@.fields.len() && !id_in(ids.deep_view(), (#[trigger] doc@.fields[j]).id)
                ==> outside_field(doc@.fields[j], x as int, y as int, pr as int),
{
    let n = doc.fields.len();
    for j in 0..n
        invariant
            doc@.wf(),
            n == doc.fields.len(),
            mag(x as int) <= 10 * GEOM_BOUND as int,
            mag(y as int) <= 10 * GEOM_BOUND as int,
            0 <= pr <= RADIUS_LIMIT,
            forall|k: int|
                0 <= k < j && !id_in(ids.deep_view(), (#[trigger] doc@.fields[k]).id)
                    ==> outside_field(doc@.fields[k], x as int, y as int, pr as int),
    {
        let f = &doc.fields[j];
        assert(doc@.fields[j as int] == f@ && doc@.fields[j as int].wf());
        if !contains_id(ids, &f.id) {
            if !circle_outside(f.position.0, f.position.1, f.radius, x, y, pr) {
                return false;
            }
        }
    }
    true
}

/// A candidate is acceptable for the nearest-position search and for the
/// membership-less placement: region-valid there and clear of every other
/// project.
pub open spec fn free_at(doc: DocView, p: ProjectView, x: int, y: int) -> bool {
    region_ok(doc.fields, p.field_ids, x, y, p.radius, MEMBER_MARGIN as int) && clear_of_projects(
        doc.projects,
        p.id,
        x,
        y,
        p.radius,
    )
}

/// First acceptable sample of the membership-less placement spiral, from
/// attempt `k` on.
#[verifier::opaque]
pub open spec fn outside_fit_from(
    doc: DocView,
    p: ProjectView,
    sx: int,
    sy: int,
    k: int,
) -> Option<(int, int)>
    decreases 200 - k,
{
    if k < 0 || k >= 200 {
        None
    } else {
        let c = spiral_point(sx, sy, k as nat, 10);
        if free_at(doc, p, c.0, c.1) {
            Some(c)
        } else {
            outside_fit_from(doc, p, sx, sy, k + 1)
        }
    }
}

/// One step of the membership-less placement spiral.
pub proof fn lemma_outside_fit_unfold(doc: DocView, p: ProjectView, sx: int, sy: int, k: int)
    requires
        0 <= k < 200,
    ensures
        outside_fit_from(doc, p, sx, sy, k) == ({
            let c = spiral_point(sx, sy, k as nat, 10);
            if free_at(doc, p, c.0, c.1) {
                Some(c)
            } else {
                outside_fit_from(doc, p, sx, sy, k + 1)
            }
        }),
{
    reveal_with_fuel(outside_fit_from, 2);
}

/// The membership-less placement spiral is exhausted at two hundred
/// attempts.
pub proof fn lemma_outside_fit_end(doc: DocView, p: ProjectView, sx: int, sy: int, k: int)
    requires
        k >= 200,
    ensures
        outside_fit_from(doc, p, sx, sy, k) is None,
{
    reveal_with_fuel(outside_fit_from, 2);
}

/// Where the membership-less tier places a project: the first free spiral
/// sample beyond the fields' bounding box, or the spiral's start.
pub open spec fn outside_place(doc: DocView, p: ProjectView) -> (int, int) {
    let s = outfield_start(doc.fields);
    match outside_fit_from(doc, p, s.0, s.1, 0) {
        Some(c) => c,
        None => s,
    }
}

/// Place a project that belongs to no live field: spiral outward from
/// just beyond the bounding box of all fields, taking the first point
/// clear of every field and every project.
fn try_outside_candidate(
    project: &Project,
    doc: &AppData,
    sx: i64,
    sy: i64,
    dx: i64,
    dy: i64,
    k: i64,
) -> (r: Option<(i64, i64)>)
    requires
        doc@.wf(),
        project@.wf(),
        mag(sx as int) <= COORD_LIMIT as int,
        mag(sy as int) <= COORD_LIMIT as int,
        0 <= k < 200,
        (dx as int, dy as int) == spiral_dir(k as nat),
    ensures
        match r {
            Some(c) => {
                &&& outside_fit_from(doc@, project@, sx as int, sy as int, k as int) == Some(
                    (c.0 as int, c.1 as int),
                )
                &&& mag(c.0 as int) <= COORD_LIMIT as int
                &&& mag(c.1 as int) <= COORD_LIMIT as int
                &&& free_at(doc@, project@, c.0 as int, c.1 as int)
            },
            None => outside_fit_from(doc@, project@, sx as int, sy as int, k as int)
                == outside_fit_from(doc@, project@, sx as int, sy as int, k as int + 1),
        },
{
    let c = spiral_point_at(sx, sy, dx, dy, k, 10);
    proof {
        lemma_outside_fit_unfold(doc@, project@, sx as int, sy as int, k as int);
    }
    let ok_region = region_ok_at(
        &doc.fields,
        &project.field_ids,
        c.0,
        c.1,
        project.radius,
        MEMBER_MARGIN,
    );
    let ok_clear = clear_of_projects_at(doc, &project.id, c.0, c.1, project.radius);
    if ok_region && ok_clear {
        Some(c)
    } else {
        None
    }
}

/// Place a project that belongs to no live field: spiral outward from
/// just beyond the bounding box of all fields, taking the first point
/// clear of every field and every project.
#[verifier::rlimit(100)]
#[verifier::spinoff_prover]
fn place_outside(project: &Project, doc: &AppData) -> (pos: (i64, i64))
    requires
        doc@.wf(),
        project@.wf(),
    ensures
        mag(pos.0 as int) <= COORD_LIMIT as int,
        mag(pos.1 as int) <= COORD_LIMIT as int,
        position_free(doc@, project@.moved_to(pos.0 as int, pos.1 as int)) || (
        pos.0 as int,
        pos.1 as int,
        ) == outfield_start(doc@.fields),
        (pos.0 as int, pos.1 as int) == outside_place(doc@, project@),
{
    let start = outfield_start_point(doc);
    let mut dx: i64 = 1000;
    let mut dy: i64 = 0;
    for attempt in 0..200i64
        invariant
            doc@.wf(),
            project@.wf(),
            mag(start.0 as int) <= COORD_LIMIT as int,
            mag(start.1 as int) <= COORD_LIMIT as int,
            (start.0 as int, start.1 as int) == outfield_start(doc@.fields),
            (dx as int, dy as int) == spiral_dir(attempt as nat),
            outside_fit_from(doc@, project@, start.0 as int, start.1 as int, 0)
                == outside_fit_from(doc@, project@, start.0 as int, start.1 as int, attempt as int),
    {
        match try_outside_candidate(project, doc, start.0, start.1, dx, dy, attempt) {
            Some(c) => {
                return c;
            },
            None => {},
        }
        let nd = rot_step(dx, dy);
        dx = nd.0;
        dy = nd.1;
    }
    proof {
        lemma_outside_fit_end(doc@, project@, start.0 as int, start.1 as int, 200);
    }
    start
}

/// Running best candidate of the nearest-position search: either nothing
/// found yet (distance sentinel, position still the project's own) or a
/// region-valid, overlap-free point.
pub open spec fn best_ok(doc: DocView, p: ProjectView, bx: int, by: int, bd2: int) -> bool {
    if bd2 == i64::MAX as int {
        bx == p.x && by == p.y
    } else {
        region_ok(doc.fields, p.field_ids, bx, by, p.radius, MEMBER_MARGIN as int)
            && clear_of_projects(doc.projects, p.id, bx, by, p.radius)
    }
}

/// Fold of the nearest-position scan from attempt `k` on: the state is
/// (x, y, squared distance to the project's current position); a free
/// sample strictly closer to the current position replaces it.
#[verifier::opaque]
pub open spec fn scan_from(
    doc: DocView,
    p: ProjectView,
    sx: int,
    sy: int,
    scale: int,
    b: (int, int, int),
    k: int,
) -> (int, int, int)
    decreases 500 - k,
{
    if k < 0 || k >= 500 {
        b
    } else {
        let c = spiral_point(sx, sy, k as nat, scale);
        let b2 = if free_at(doc, p, c.0, c.1) && dist2(c.0, c.1, p.x, p.y) < b.2 {
            (c.0, c.1, dist2(c.0, c.1, p.x, p.y))
        } else {
            b
        };
        scan_from(doc, p, sx, sy, scale, b2, k + 1)
    }
}

/// One step of the nearest-position scan.
pub proof fn lemma_scan_unfold(
    doc: DocView,
    p: ProjectView,
    sx: int,
    sy: int,
    scale: int,
    b: (int, int, int),
    k: int,
)
    requires
        0 <= k < 500,
    ensures
        scan_from(doc, p, sx, sy, scale, b, k) == ({
            let c = spiral_point(sx, sy, k as nat, scale);
            let b2 = if free_at(doc, p, c.0, c.1) && dist2(c.0, c.1, p.x, p.y) < b.2 {
                (c.0, c.1, dist2(c.0, c.1, p.x, p.y))
            } else {
                b
            };
            scan_from(doc, p, sx, sy, scale, b2, k + 1)
        }),
{
    reveal_with_fuel(scan_from, 2);
}

/// The nearest-position scan is exhausted at five hundred attempts.
pub proof fn lemma_scan_end(
    doc: DocView,
    p: ProjectView,
    sx: int,
    sy: int,
    scale: int,
    b: (int, int, int),
    k: int,
)
    requires
        k >= 500,
    ensures
        scan_from(doc, p, sx, sy, scale, b, k) == b,
{
    reveal_with_fuel(scan_from, 2);
}

/// Where the nearest-position search ends up: the current position when
/// it is already free, else the closest free sample of the spiral scans
/// (one scan for membership-less projects, two — from the position and
/// from the target rim — for members), else the current position
/// unchanged.
pub open spec fn nearest_place(doc: DocView, p: ProjectView) -> (int, int) {
    if free_at(doc, p, p.x, p.y) {
        (p.x, p.y)
    } else {
        let ts = resolved_targets(doc.fields, p.field_ids);
        let b0 = (p.x, p.y, i64::MAX as int);
        if ts.len() == 0 {
            let b = scan_from(doc, p, p.x, p.y, 5, b0, 0);
            (b.0, b.1)
        } else {
            let e = edge_start(doc.fields, ts, p.x, p.y);
            let b1 = scan_from(doc, p, p.x, p.y, 8, b0, 0);
            let b = scan_from(doc, p, e.0, e.1, 8, b1, 0);
            (b.0, b.1)
        }
    }
}

/// One attempt of the nearest-position scan.
fn try_nearest_candidate(
    project: &Project,
    doc: &AppData,
    sx: i64,
    sy: i64,
    scale: i64,
    dx: i64,
    dy: i64,
    k: i64,
    b: (i64, i64, i64),
) -> (r: (i64, i64, i64))
    requires
        doc@.wf(),
        project@.wf(),
        mag(sx as int) <= COORD_LIMIT as int,
        mag(sy as int) <= COORD_LIMIT as int,
        0 <= scale <= 10,
        0 <= k < 500,
        (dx as int, dy as int) == spiral_dir(k as nat),
        best_ok(doc@, project@, b.0 as int, b.1 as int, b.2 as int),
        mag(b.0 as int) <= COORD_LIMIT as int,
        mag(b.1 as int) <= COORD_LIMIT as int,
        b.2 >= 0,
    ensures
        scan_from(
            doc@,
            project@,
            sx as int,
            sy as int,
            scale as int,
            (b.0 as int, b.1 as int, b.2 as int),
            k as int,
        ) == scan_from(
            doc@,
            project@,
            sx as int,
            sy as int,
            scale as int,
            (r.0 as int, r.1 as int, r.2 as int),
            k as int + 1,
        ),
        best_ok(doc@, project@, r.0 as int, r.1 as int, r.2 as int),
        mag(r.0 as int) <= COORD_LIMIT as int,
        mag(r.1 as int) <= COORD_LIMIT as int,
        0 <= r.2 <= b.2,
{
    proof {
        lemma_scan_unfold(
            doc@,
            project@,
            sx as int,
            sy as int,
            scale as int,
            (b.0 as int, b.1 as int, b.2 as int),
            k as int,
        );
    }
    let c = spiral_point_at(sx, sy, dx, dy, k, scale);
    let ok_region = region_ok_at(
        &doc.fields,
        &project.field_ids,
        c.0,
        c.1,
        project.radius,
        MEMBER_MARGIN,
    );
    let ok_clear = clear_of_projects_at(doc, &project.id, c.0, c.1, project.radius);
    let d2 = dist2_i64(c.0, c.1, project.position.0, project.position.1);
    if ok_region && ok_clear && d2 < b.2 {
        (c.0, c.1, d2)
    } else {
        (b.0, b.1, b.2)
    }
}

/// One spiral pass of the nearest-position search: sample five hundred
/// candidates around `(sx, sy)` and keep whichever valid one lies closest
/// to the project's current position.
fn nearest_scan(
    project: &Project,
    doc: &AppData,
    sx: i64,
    sy: i64,
    scale: i64,
    b: (i64, i64, i64),
) -> (r: (i64, i64, i64))
    requires
        doc@.wf(),
        project@.wf(),
        mag(sx as int) <= COORD_LIMIT as int,
        mag(sy as int) <= COORD_LIMIT as int,
        0 <= scale <= 10,
        best_ok(doc@, project@, b.0 as int, b.1 as int, b.2 as int),
        mag(b.0 as int) <= COORD_LIMIT as int,
        mag(b.1 as int) <= COORD_LIMIT as int,
        b.2 >= 0,
    ensures
        best_ok(doc@, project@, r.0 as int, r.1 as int, r.2 as int),
        mag(r.0 as int) <= COORD_LIMIT as int,
        mag(r.1 as int) <= COORD_LIMIT as int,
        0 <= r.2 <= b.2,
        (r.0 as int, r.1 as int, r.2 as int) == scan_from(
            doc@,
            project@,
            sx as int,
            sy as int,
            scale as int,
            (b.0 as int, b.1 as int, b.2 as int),
            0,
        ),
{
    let mut cur = b;
    let mut dx: i64 = 1000;
    let mut dy: i64 = 0;
    for attempt in 0..500i64
        invariant
            doc@.wf(),
            project@.wf(),
            mag(sx as int) <= COORD_LIMIT as int,
            mag(sy as int) <= COORD_LIMIT as int,
            0 <= scale <= 10,
            (dx as int, dy as int) == spiral_dir(attempt as nat),
            best_ok(doc@, project@, cur.0 as int, cur.1 as int, cur.2 as int),
            mag(cur.0 as int) <= COORD_LIMIT as int,
            mag(cur.1 as int) <= COORD_LIMIT as int,
            0 <= cur.2 <= b.2,
            scan_from(
                doc@,
                project@,
                sx as int,
                sy as int,
                scale as int,
                (b.0 as int, b.1 as int, b.2 as int),
                0,
            ) == scan_from(
                doc@,
                project@,
                sx as int,
                sy as int,
                scale as int,
                (cur.0 as int, cur.1 as int, cur.2 as int),
                attempt as int,
            ),
    {
        cur = try_nearest_candidate(project, doc, sx, sy, scale, dx, dy, attempt, cur);
        let nd = rot_step(dx, dy);
        dx = nd.0;
        dy = nd.1;
    }
    proof {
        lemma_scan_end(
            doc@,
            project@,
            sx as int,
            sy as int,
            scale as int,
            (cur.0 as int, cur.1 as int, cur.2 as int),
            500,
        );
    }
    cur
}

/// Nearest valid position to the project's current one: the position
/// itself when it is already region-valid and clear of other projects,
/// otherwise the closest spiral sample that is, searched from the current
/// position and (for member projects) from a point near the target
/// fields' rim.  When the attempt budget finds nothing, the current
/// position is returned unchanged.  A membership list of nothing but
/// dangling ids places like an empty one.
pub fn nearest_valid_position(project: &Project, doc: &AppData) -> (pos: (i64, i64))
    requires
        doc@.wf(),
        project@.wf(),
    ensures
        mag(pos.0 as int) <= COORD_LIMIT as int,
        mag(pos.1 as int) <= COORD_LIMIT as int,
        position_free(doc@, project@.moved_to(pos.0 as int, pos.1 as int)) || (
        pos.0 as int,
        pos.1 as int,
        ) == (project@.x, project@.y),
        position_free(doc@, project@) ==> pos == project.position,
        (pos.0 as int, pos.1 as int) == nearest_place(doc@, project@),
{
    let px = project.position.0;
    let py = project.position.1;
    let region0 = region_ok_at(&doc.fields, &project.field_ids, px, py, project.radius, MEMBER_MARGIN);
    if region0 && clear_of_projects_at(doc, &project.id, px, py, project.radius) {
        return project.position;
    }
    assert(!position_free(doc@, project@));
    let targets = resolve_targets(doc, &project.field_ids);
    let mut best = (px, py, i64::MAX);
    if targets.len() == 0 {
        best = nearest_scan(project, doc, px, py, 5, best);
    } else {
        best = nearest_scan(project, doc, px, py, 8, best);
        let e = edge_start_point(doc, &targets, px, py);
        best = nearest_scan(project, doc, e.0, e.1, 8, best);
    }
    proof {
        if best.2 != i64::MAX {
            assert(project@.moved_to(best.0 as int, best.1 as int).field_ids
                == project@.field_ids);
            assert(position_free(doc@, project@.moved_to(best.0 as int, best.1 as int)));
        }
    }
    (best.0, best.1)
}

/// The second search start for a member project: near the target rim,
/// away from the targets' centroid, toward the current position.
fn edge_start_point(doc: &AppData, ts: &Vec<usize>, px: i64, py: i64) -> (e: (i64, i64))
    requires
        doc@.wf(),
        ts@.len() > 0,
        forall|k: int| 0 <= k < ts@.len() ==> (#[trigger] ts@[k]) < doc.fields.len(),
        mag(px as int) <= COORD_LIMIT as int,
        mag(py as int) <= COORD_LIMIT as int,
    ensures
        (e.0 as int, e.1 as int) == edge_start(
            doc@.fields,
            ts@.map_values(|u: usize| u as int),
            px as int,
            py as int,
        ),
        mag(e.0 as int) <= COORD_LIMIT as int,
        mag(e.1 as int) <= COORD_LIMIT as int,
{
    let c = centroid_point(doc, ts);
    let mr = min_target_radius(doc, ts);
    let d2 = dist2_i64(px, py, c.0, c.1);
    let len = isqrt(d2);
    proof {
        assert(d2 <= 1_600_000_000_000_000) by (nonlinear_arith)
            requires
                dist2(px as int, py as int, c.0 as int, c.1 as int) == d2 as int,
                mag(px as int) <= COORD_LIMIT as int,
                mag(py as int) <= COORD_LIMIT as int,
                mag(c.0 as int) <= COORD_LIMIT as int,
                mag(c.1 as int) <= COORD_LIMIT as int,
                COORD_LIMIT == 10_000_000,
        ;
        if len > 40_000_000 {
            assert((len as int) * (len as int) > 1_600_000_000_000_000) by (nonlinear_arith)
                requires
                    len as int > 40_000_000,
            ;
        }
    }
    if len == 0 {
        (clamp_i64(c.0 + 6 * mr / 10, -COORD_LIMIT, COORD_LIMIT), clamp_i64(c.1, -COORD_LIMIT, COORD_LIMIT))
    } else {
        proof {
            lemma_muldiv_bound((px - c.0) as int, 6 * mr as int, 10 * len as int, 20_000_000, 6_000_000);
            lemma_muldiv_bound((py - c.1) as int, 6 * mr as int, 10 * len as int, 20_000_000, 6_000_000);
            vstd::arithmetic::div_mod::lemma_div_is_ordered_by_denominator(
                120_000_000_000_000,
                10,
                10 * len as int,
            );
        }
        let ox = muldiv_i64(px - c.0, 6 * mr, 10 * len);
        let oy = muldiv_i64(py - c.1, 6 * mr, 10 * len);
        (
            clamp_i64(c.0 + ox, -COORD_LIMIT, COORD_LIMIT),
            clamp_i64(c.1 + oy, -COORD_LIMIT, COORD_LIMIT),
        )
    }
}

/// Accumulated pull of the first `i` target fields on the anchor point
/// `(x, y)`: any target whose safe interior the point has left pulls it
/// halfway back, proportionally.  Components saturate at `FORCE_CAP`.
pub open spec fn target_pull(
    fields: Seq<FieldView>,
    ts: Seq<int>,
    x: int,
    y: int,
    pr: int,
    i: int,
) -> (int, int, bool)
    decreases i,
{
    if i <= 0 {
        (0, 0, false)
    } else {
        let prev = target_pull(fields, ts, x, y, pr, i - 1);
        let f = fields[ts[i - 1]];
        let dist = sqrt_floor(dist2(x, y, f.x, f.y));
        let maxd = f.radius - pr - 15;
        if dist > maxd && dist > 0 {
            let fc = crate::geom::FORCE_CAP as int;
            (
                clamp(prev.0 - muldiv(x - f.x, dist - maxd, 2 * dist), -fc, fc),
                clamp(prev.1 - muldiv(y - f.y, dist - maxd, 2 * dist), -fc, fc),
                true,
            )
        } else {
            prev
        }
    }
}

/// On top of `acc`, the push of the first `j` non-member fields on the
/// anchor point: a field the point has come too close to pushes it away
/// at three tenths strength.
pub open spec fn nontarget_push(
    fields: Seq<FieldView>,
    ids: Seq<Seq<char>>,
    x: int,
    y: int,
    pr: int,
    j: int,
    acc: (int, int, bool),
) -> (int, int, bool)
    decreases j,
{
    if j <= 0 {
        acc
    } else {
        let prev = nontarget_push(fields, ids, x, y, pr, j - 1, acc);
        let f = fields[j - 1];
        if id_in(ids, f.id) {
            prev
        } else {
            let dist = sqrt_floor(dist2(x, y, f.x, f.y));
            let lim = f.radius + pr + 20;
            if dist < lim && dist > 0 {
                let fc = crate::geom::FORCE_CAP as int;
                (
                    clamp(prev.0 + muldiv(x - f.x, (lim - dist) * 3, 10 * dist), -fc, fc),
                    clamp(prev.1 + muldiv(y - f.y, (lim - dist) * 3, 10 * dist), -fc, fc),
                    true,
                )
            } else {
                prev
            }
        }
    }
}

/// One relaxation step of the intersection anchor.
pub open spec fn anchor_step(
    fields: Seq<FieldView>,
    ts: Seq<int>,
    ids: Seq<Seq<char>>,
    pr: int,
    x: int,
    y: int,
) -> (int, int, bool) {
    let m = nontarget_push(
        fields,
        ids,
        x,
        y,
        pr,
        fields.len() as int,
        target_pull(fields, ts, x, y, pr, ts.len() as int),
    );
    let cl = COORD_LIMIT as int;
    (clamp(x + m.0, -cl, cl), clamp(y + m.1, -cl, cl), m.2)
}

/// The anchor point after up to `fuel` relaxation steps, stopping early
/// at a fixed point.
pub open spec fn anchor_iter(
    fields: Seq<FieldView>,
    ts: Seq<int>,
    ids: Seq<Seq<char>>,
    pr: int,
    x: int,
    y: int,
    fuel: nat,
) -> (int, int)
    decreases fuel,
{
    if fuel == 0 {
        (x, y)
    } else {
        let s = anchor_step(fields, ts, ids, pr, x, y);
        if !s.2 {
            (x, y)
        } else {
            anchor_iter(fields, ts, ids, pr, s.0, s.1, (fuel - 1) as nat)
        }
    }
}

/// The approximate intersection point of the target fields: the targets'
/// centroid, relaxed for up to one hundred steps into every target's safe
/// interior and away from non-member fields.
pub open spec fn multi_anchor(
    fields: Seq<FieldView>,
    ts: Seq<int>,
    ids: Seq<Seq<char>>,
    pr: int,
) -> (int, int)
    recommends
        ts.len() > 0,
{
    let c = targets_centroid(fields, ts);
    anchor_iter(fields, ts, ids, pr, c.0, c.1, 100)
}

/// The pull and push moves acting on the anchor at `(x, y)`.
fn anchor_moves(
    doc: &AppData,
    ts: &Vec<usize>,
    ids: &Vec<String>,
    x: i64,
    y: i64,
    pr: i64,
) -> (m: (i64, i64, bool))
    requires
        doc@.wf(),
        forall|k: int| 0 <= k < ts@.len() ==> (#[trigger] ts@[k]) < doc.fields.len(),
        mag(x as int) <= COORD_LIMIT as int,
        mag(y as int) <= COORD_LIMIT as int,
        0 <= pr <= RADIUS_LIMIT,
    ensures
        (m.0 as int, m.1 as int, m.2) == nontarget_push(
            doc@.fields,
            ids.deep_view(),
            x as int,
            y as int,
            pr as int,
            doc@.fields.len() as int,
            target_pull(
                doc@.fields,
                ts@.map_values(|u: usize| u as int),
                x as int,
                y as int,
                pr as int,
                ts@.len() as int,
            ),
        ),
        mag(m.0 as int) <= crate::geom::FORCE_CAP as int,
        mag(m.1 as int) <= crate::geom::FORCE_CAP as int,
{
    let ghost tseq = ts@.map_values(|u: usize| u as int);
    let mut mx: i64 = 0;
    let mut my: i64 = 0;
    let mut need = false;
    let tn = ts.len();
    for k in 0..tn
        invariant
            doc@.wf(),
            tn == ts@.len(),
            tseq == ts@.map_values(|u: usize| u as int),
            forall|k0: int| 0 <= k0 < ts@.len() ==> (#[trigger] ts@[k0]) < doc.fields.len(),
            mag(x as int) <= COORD_LIMIT as int,
            mag(y as int) <= COORD_LIMIT as int,
            0 <= pr <= RADIUS_LIMIT,
            (mx as int, my as int, need) == target_pull(
                doc@.fields,
                tseq,
                x as int,
                y as int,
                pr as int,
                k as int,
            ),
            mag(mx as int) <= crate::geom::FORCE_CAP as int,
            mag(my as int) <= crate::geom::FORCE_CAP as int,
    {
        let f = &doc.fields[ts[k]];
        proof {
            assert(tseq[k as int] == ts@[k as int] as int);
            assert(doc@.fields[tseq[k as int]] == f@ && doc@.fields[tseq[k as int]].wf());
        }
        let d2 = dist2_i64(x, y, f.position.0, f.position.1);
        let dist = isqrt(d2);
        proof {
            assert(d2 <= 1_600_000_000_000_000) by (nonlinear_arith)
                requires
                    d2 as int == dist2(x as int, y as int, f@.x, f@.y),
                    mag(x as int) <= 10_000_000,
                    mag(y as int) <= 10_000_000,
                    mag(f@.x) <= 10_000_000,
                    mag(f@.y) <= 10_000_000,
            ;
            crate::geom::lemma_isqrt_le(d2 as int, dist as int, 40_000_000);
        }
        let maxd = f.radius - pr - 15;
        if dist > maxd && dist > 0 {
            let num = dist - maxd;
            let den = 2 * dist;
            proof {
                assert(0 <= mag((x - f.position.0) as int) * (num as int)
                    <= 860_000_000_000_000) by (nonlinear_arith)
                    requires
                        mag((x - f.position.0) as int) <= 20_000_000,
                        0 <= num as int <= 43_000_000,
                ;
                assert(0 <= mag((y - f.position.1) as int) * (num as int)
                    <= 860_000_000_000_000) by (nonlinear_arith)
                    requires
                        mag((y - f.position.1) as int) <= 20_000_000,
                        0 <= num as int <= 43_000_000,
                ;
                vstd::arithmetic::div_mod::lemma_div_nonincreasing(
                    mag((x - f.position.0) as int) * (num as int),
                    den as int,
                );
                vstd::arithmetic::div_mod::lemma_div_nonincreasing(
                    mag((y - f.position.1) as int) * (num as int),
                    den as int,
                );
                vstd::arithmetic::div_mod::lemma_div_pos_is_pos(
                    mag((x - f.position.0) as int) * (num as int),
                    den as int,
                );
                vstd::arithmetic::div_mod::lemma_div_pos_is_pos(
                    mag((y - f.position.1) as int) * (num as int),
                    den as int,
                );
            }
            let cx0 = muldiv_i64(x - f.position.0, num, den);
            let cy0 = muldiv_i64(y - f.position.1, num, den);
            mx = clamp_i64(mx - cx0, -crate::geom::FORCE_CAP, crate::geom::FORCE_CAP);
            my = clamp_i64(my - cy0, -crate::geom::FORCE_CAP, crate::geom::FORCE_CAP);
            need = true;
        }
    }
    let fnum = doc.fields.len();
    let ghost acc = (mx as int, my as int, need);
    for j in 0..fnum
        invariant
            doc@.wf(),
            fnum == doc.fields.len(),
            mag(x as int) <= COORD_LIMIT as int,
            mag(y as int) <= COORD_LIMIT as int,
            0 <= pr <= RADIUS_LIMIT,
            (mx as int, my as int, need) == nontarget_push(
                doc@.fields,
                ids.deep_view(),
                x as int,
                y as int,
                pr as int,
                j as int,
                acc,
            ),
            mag(mx as int) <= crate::geom::FORCE_CAP as int,
            mag(my as int) <= crate::geom::FORCE_CAP as int,
    {
        let f = &doc.fields[j];
        assert(doc@.fields[j as int] == f@ && doc@.fields[j as int].wf());
        if !contains_id(ids, &f.id) {
            let d2 = dist2_i64(x, y, f.position.0, f.position.1);
            let dist = isqrt(d2);
            proof {
                assert(d2 <= 1_600_000_000_000_000) by (nonlinear_arith)
                    requires
                        d2 as int == dist2(x as int, y as int, f@.x, f@.y),
                        mag(x as int) <= 10_000_000,
                        mag(y as int) <= 10_000_000,
                        mag(f@.x) <= 10_000_000,
                        mag(f@.y) <= 10_000_000,
                ;
                crate::geom::lemma_isqrt_le(d2 as int, dist as int, 40_000_000);
            }
            let lim = f.radius + pr + 20;
            if dist < lim && dist > 0 {
                let num = (lim - dist) * 3;
                let den = 10 * dist;
                proof {
                    assert(0 <= mag((x - f.position.0) as int) * (num as int)
                        <= 140_000_000_000_000) by (nonlinear_arith)
                        requires
                            mag((x - f.position.0) as int) <= 20_000_000,
                            0 <= num as int <= 7_000_000,
                    ;
                    assert(0 <= mag((y - f.position.1) as int) * (num as int)
                        <= 140_000_000_000_000) by (nonlinear_arith)
                        requires
                            mag((y - f.position.1) as int) <= 20_000_000,
                            0 <= num as int <= 7_000_000,
                    ;
                    vstd::arithmetic::div_mod::lemma_div_nonincreasing(
                        mag((x - f.position.0) as int) * (num as int),
                        den as int,
                    );
                    vstd::arithmetic::div_mod::lemma_div_nonincreasing(
                        mag((y - f.position.1) as int) * (num as int),
                        den as int,
                    );
                    vstd::arithmetic::div_mod::lemma_div_pos_is_pos(
                        mag((x - f.position.0) as int) * (num as int),
                        den as int,
                    );
                    vstd::arithmetic::div_mod::lemma_div_pos_is_pos(
                        mag((y - f.position.1) as int) * (num as int),
                        den as int,
                    );
                }
                let cx0 = muldiv_i64(x - f.position.0, num, den);
                let cy0 = muldiv_i64(y - f.position.1, num, den);
                mx = clamp_i64(mx + cx0, -crate::geom::FORCE_CAP, crate::geom::FORCE_CAP);
                my = clamp_i64(my + cy0, -crate::geom::FORCE_CAP, crate::geom::FORCE_CAP);
                need = true;
            }
        }
    }
    (mx, my, need)
}

/// Relax the targets' centroid into the fields' common region.
fn intersection_anchor(doc: &AppData, ts: &Vec<usize>, ids: &Vec<String>, pr: i64) -> (a: (
    i64,
    i64,
))
    requires
        doc@.wf(),
        ts@.len() > 0,
        forall|k: int| 0 <= k < ts@.len() ==> (#[trigger] ts@[k]) < doc.fields.len(),
        0 <= pr <= RADIUS_LIMIT,
    ensures
        (a.0 as int, a.1 as int) == multi_anchor(
            doc@.fields,
            ts@.map_values(|u: usize| u as int),
            ids.deep_view(),
            pr as int,
        ),
        mag(a.0 as int) <= COORD_LIMIT as int,
        mag(a.1 as int) <= COORD_LIMIT as int,
{
    let ghost tseq = ts@.map_values(|u: usize| u as int);
    let c = centroid_point(doc, ts);
    let mut x = c.0;
    let mut y = c.1;
    for k in 0..100u32
        invariant
            doc@.wf(),
            ts@.len() > 0,
            tseq == ts@.map_values(|u: usize| u as int),
            forall|k0: int| 0 <= k0 < ts@.len() ==> (#[trigger] ts@[k0]) < doc.fields.len(),
            0 <= pr <= RADIUS_LIMIT,
            mag(x as int) <= COORD_LIMIT as int,
            mag(y as int) <= COORD_LIMIT as int,
            anchor_iter(
                doc@.fields,
                tseq,
                ids.deep_view(),
                pr as int,
                x as int,
                y as int,
                (100 - k) as nat,
            ) == multi_anchor(doc@.fields, tseq, ids.deep_view(), pr as int),
    {
        let m = anchor_moves(doc, ts, ids, x, y, pr);
        if !m.2 {
            return (x, y);
        }
        x = clamp_i64(x + m.0, -COORD_LIMIT, COORD_LIMIT);
        y = clamp_i64(y + m.1, -COORD_LIMIT, COORD_LIMIT);
    }
    (x, y)
}

/// Distance from `(x, y)` to the nearest of the first `i` projects other
/// than the one named `skip`; the `i64` maximum when there is none.
pub open spec fn nearest_other_dist(
    projects: Seq<ProjectView>,
    skip: Seq<char>,
    x: int,
    y: int,
    i: int,
) -> int
    decreases i,
{
    if i <= 0 {
        i64::MAX as int
    } else {
        let prev = nearest_other_dist(projects, skip, x, y, i - 1);
        let q = projects[i - 1];
        if q.id == skip {
            prev
        } else {
            let d = sqrt_floor(dist2(x, y, q.x, q.y));
            if d < prev {
                d
            } else {
                prev
            }
        }
    }
}

/// Whether the circle is clear of every other project, and the distance
/// to the nearest one (`i64::MAX` when there is none), used to score
/// candidates.
fn clear_and_nearest(doc: &AppData, skip: &String, x: i64, y: i64, pr: i64) -> (r: (bool, i64))
    requires
        doc@.wf(),
        mag(x as int) <= 10 * GEOM_BOUND as int,
        mag(y as int) <= 10 * GEOM_BOUND as int,
        0 <= pr <= RADIUS_LIMIT,
    ensures
        r.0 == clear_of_projects(doc@.projects, skip@, x as int, y as int, pr as int),
        r.1 >= 0,
        r.0 ==> r.1 as int == nearest_other_dist(
            doc@.projects,
            skip@,
            x as int,
            y as int,
            doc@.projects.len() as int,
        ),
{
    let n = doc.projects.len();
    let mut md: i64 = i64::MAX;
    for j in 0..n
        invariant
            doc@.wf(),
            n == doc.projects.len(),
            mag(x as int) <= 10 * GEOM_BOUND as int,
            mag(y as int) <= 10 * GEOM_BOUND as int,
            0 <= pr <= RADIUS_LIMIT,
            md >= 0,
            md as int == nearest_other_dist(doc@.projects, skip@, x as int, y as int, j as int),
            forall|k: int|
                0 <= k < j && (#[trigger] doc@.projects[k]).id != skip@ ==> dist2(
                    x as int,
                    y as int,
                    doc@.projects[k].x,
                    doc@.projects[k].y,
                ) >= sq(pr + doc@.projects[k].radius + PROJECT_GAP as int),
    {
        let other = &doc.projects[j];
        assert(doc@.projects[j as int] == other@ && doc@.projects[j as int].wf());
        if !(other.id == *skip) {
            let s = pr + other.radius + PROJECT_GAP;
            let d2 = dist2_i64(x, y, other.position.0, other.position.1);
            proof {
                assert(0 <= (s as int) * (s as int) <= 9_000_000_000_000) by (nonlinear_arith)
                    requires
                        0 <= s as int <= 3_000_000,
                ;
            }
            if d2 < s * s {
                return (false, 0);
            }
            let d = isqrt(d2);
            if d < md {
                md = d;
            }
        }
    }
    (true, md)
}

/// A containment margin of the project gap implies the standard one.
proof fn lemma_within_gap_margin(f: FieldView, x: int, y: int, pr: int)
    requires
        within_field(f, x, y, pr, PROJECT_GAP as int),
    ensures
        within_field(f, x, y, pr, MEMBER_MARGIN as int),
{
    let l1 = f.radius - PROJECT_GAP as int - pr;
    let l2 = f.radius - MEMBER_MARGIN as int - pr;
    assert(l1 * l1 <= l2 * l2) by (nonlinear_arith)
        requires
            0 <= l1 <= l2,
    ;
}

/// As `lemma_within_gap_margin`, for the multi-field search margin of ten.
proof fn lemma_within_ten_margin(f: FieldView, x: int, y: int, pr: int)
    requires
        within_field(f, x, y, pr, 10),
    ensures
        within_field(f, x, y, pr, MEMBER_MARGIN as int),
{
    let l1 = f.radius - 10 - pr;
    let l2 = f.radius - MEMBER_MARGIN as int - pr;
    assert(l1 * l1 <= l2 * l2) by (nonlinear_arith)
        requires
            0 <= l1 <= l2,
    ;
}

/// The `k`-th sample of the scored single-field spiral: radius sweeping
/// inward from eight tenths of the safe radius, never under the project
/// radius plus ten.
pub open spec fn single_candidate(f: FieldView, pr: int, k: int) -> (int, int) {
    let max_safe = f.radius - (pr + PROJECT_GAP as int);
    let rf = 800 - 3 * k;
    let r0 = muldiv(max_safe, rf, 1000);
    let lo = pr + 10;
    let radius = if r0 >= lo {
        r0
    } else {
        lo
    };
    let d = spiral_dir(k as nat);
    let cl = COORD_LIMIT as int;
    (
        clamp(f.x + muldiv(d.0, radius, 1000), -cl, cl),
        clamp(f.y + muldiv(d.1, radius, 1000), -cl, cl),
    )
}

/// A candidate is acceptable for the scored single-field search: inside
/// the target with the full project gap as margin, fully outside every
/// other field, clear of all projects and of all arrows.
pub open spec fn single_accept(doc: DocView, p: ProjectView, t: int, x: int, y: int) -> bool {
    &&& within_field(doc.fields[t], x, y, p.radius, PROJECT_GAP as int)
    &&& forall|j: int|
        0 <= j < doc.fields.len() && j != t ==> outside_field(
            #[trigger] doc.fields[j],
            x,
            y,
            p.radius,
        )
    &&& clear_of_projects(doc.projects, p.id, x, y, p.radius)
    &&& arrow_clear(doc, p.id, x, y, p.radius)
}

/// Fold of the scored single-field search from attempt `k` on: the state
/// is (found, x, y, best distance to the nearest neighbour); an
/// acceptable candidate strictly farther from its nearest neighbour than
/// the best so far replaces it.
#[verifier::opaque]
pub open spec fn scored_from(
    doc: DocView,
    p: ProjectView,
    t: int,
    st: (bool, int, int, int),
    k: int,
) -> (bool, int, int, int)
    decreases 200 - k,
{
    if k < 0 || k >= 200 {
        st
    } else {
        let c = single_candidate(doc.fields[t], p.radius, k);
        let st2 = if single_accept(doc, p, t, c.0, c.1) {
            let md = nearest_other_dist(doc.projects, p.id, c.0, c.1, doc.projects.len() as int);
            if md > st.3 {
                (true, c.0, c.1, md)
            } else {
                st
            }
        } else {
            st
        };
        scored_from(doc, p, t, st2, k + 1)
    }
}

/// One step of the scored single-field search.
pub proof fn lemma_scored_unfold(doc: DocView, p: ProjectView, t: int, st: (bool, int, int, int), k: int)
    requires
        0 <= k < 200,
    ensures
        scored_from(doc, p, t, st, k) == ({
            let c = single_candidate(doc.fields[t], p.radius, k);
            let st2 = if single_accept(doc, p, t, c.0, c.1) {
                let md = nearest_other_dist(
                    doc.projects,
                    p.id,
                    c.0,
                    c.1,
                    doc.projects.len() as int,
                );
                if md > st.3 {
                    (true, c.0, c.1, md)
                } else {
                    st
                }
            } else {
                st
            };
            scored_from(doc, p, t, st2, k + 1)
        }),
{
    reveal_with_fuel(scored_from, 2);
}

/// The scored single-field search is exhausted at two hundred attempts.
pub proof fn lemma_scored_end(doc: DocView, p: ProjectView, t: int, st: (bool, int, int, int), k: int)
    requires
        k >= 200,
    ensures
        scored_from(doc, p, t, st, k) == st,
{
    reveal_with_fuel(scored_from, 2);
}

/// A candidate is acceptable for the relaxed single-field fallback:
/// inside the target with the standard margin and fully outside every
/// other field; overlap and arrows are no longer considered.
pub open spec fn single_relaxed_accept(doc: DocView, p: ProjectView, t: int, x: int, y: int) -> bool {
    &&& within_field(doc.fields[t], x, y, p.radius, MEMBER_MARGIN as int)
    &&& forall|j: int|
        0 <= j < doc.fields.len() && j != t ==> outside_field(
            #[trigger] doc.fields[j],
            x,
            y,
            p.radius,
        )
}

/// First acceptable sample of the relaxed single-field fallback spiral,
/// from attempt `k` on.
#[verifier::opaque]
pub open spec fn single_fallback_from(doc: DocView, p: ProjectView, t: int, k: int) -> Option<
    (int, int),
>
    decreases 200 - k,
{
    if k < 0 || k >= 200 {
        None
    } else {
        let c = spiral_point(doc.fields[t].x, doc.fields[t].y, k as nat, 10);
        if single_relaxed_accept(doc, p, t, c.0, c.1) {
            Some(c)
        } else {
            single_fallback_from(doc, p, t, k + 1)
        }
    }
}

/// One step of the relaxed single-field fallback spiral.
pub proof fn lemma_single_fallback_unfold(doc: DocView, p: ProjectView, t: int, k: int)
    requires
        0 <= k < 200,
    ensures
        single_fallback_from(doc, p, t, k) == ({
            let c = spiral_point(doc.fields[t].x, doc.fields[t].y, k as nat, 10);
            if single_relaxed_accept(doc, p, t, c.0, c.1) {
                Some(c)
            } else {
                single_fallback_from(doc, p, t, k + 1)
            }
        }),
{
    reveal_with_fuel(single_fallback_from, 2);
}

/// The relaxed single-field fallback spiral is exhausted at two hundred
/// attempts.
pub proof fn lemma_single_fallback_end(doc: DocView, p: ProjectView, t: int, k: int)
    requires
        k >= 200,
    ensures
        single_fallback_from(doc, p, t, k) is None,
{
    reveal_with_fuel(single_fallback_from, 2);
}

/// Where the single-membership tier places a project: the acceptable
/// spiral sample farthest from its nearest neighbour; failing that, the
/// first sample of the relaxed fallback spiral; failing that, the
/// field's own centre.
pub open spec fn single_place(doc: DocView, p: ProjectView, t: int) -> (int, int) {
    let st = scored_from(doc, p, t, (false, 0, 0, 0), 0);
    if st.0 {
        (st.1, st.2)
    } else {
        match single_fallback_from(doc, p, t, 0) {
            Some(c) => c,
            None => (doc.fields[t].x, doc.fields[t].y),
        }
    }
}

/// One attempt of the scored single-field search: compute the candidate,
/// test it, and fold it into the running best state.
fn try_scored_candidate(
    project: &Project,
    doc: &AppData,
    t: usize,
    dx: i64,
    dy: i64,
    k: i64,
    st: (bool, i64, i64, i64),
) -> (r: (bool, i64, i64, i64))
    requires
        doc@.wf(),
        project@.wf(),
        t < doc.fields.len(),
        resolved_targets(doc@.fields, project@.field_ids) == seq![t as int],
        0 <= k < 200,
        (dx as int, dy as int) == spiral_dir(k as nat),
        st.0 ==> {
            &&& mag(st.1 as int) <= COORD_LIMIT as int
            &&& mag(st.2 as int) <= COORD_LIMIT as int
            &&& position_free(doc@, project@.moved_to(st.1 as int, st.2 as int))
            &&& arrow_clear(doc@, project@.id, st.1 as int, st.2 as int, project@.radius)
        },
        st.3 >= 0,
    ensures
        scored_from(
            doc@,
            project@,
            t as int,
            (st.0, st.1 as int, st.2 as int, st.3 as int),
            k as int,
        ) == scored_from(
            doc@,
            project@,
            t as int,
            (r.0, r.1 as int, r.2 as int, r.3 as int),
            k as int + 1,
        ),
        r.0 ==> {
            &&& mag(r.1 as int) <= COORD_LIMIT as int
            &&& mag(r.2 as int) <= COORD_LIMIT as int
            &&& position_free(doc@, project@.moved_to(r.1 as int, r.2 as int))
            &&& arrow_clear(doc@, project@.id, r.1 as int, r.2 as int, project@.radius)
        },
        r.3 >= 0,
{
    let pr = project.radius;
    let tfx = doc.fields[t].position.0;
    let tfy = doc.fields[t].position.1;
    let tfr = doc.fields[t].radius;
    proof {
        assert(doc@.fields[t as int] == doc.fields@[t as int]@ && doc@.fields[t as int].wf());
        lemma_scored_unfold(
            doc@,
            project@,
            t as int,
            (st.0, st.1 as int, st.2 as int, st.3 as int),
            k as int,
        );
    }
    let max_safe = tfr - (pr + PROJECT_GAP);
    let rf = 800 - 3 * k;
    proof {
        lemma_muldiv_bound(max_safe as int, rf as int, 1000, 2_100_000, 800);
    }
    let r0 = muldiv_i64(max_safe, rf, 1000);
    let lo = pr + 10;
    let radius = if r0 >= lo {
        r0
    } else {
        lo
    };
    proof {
        crate::geom::lemma_spiral_dir_bounds(k as nat);
        lemma_muldiv_bound(dx as int, radius as int, 1000, 1200, 1_700_000);
        lemma_muldiv_bound(dy as int, radius as int, 1000, 1200, 1_700_000);
    }
    let ox = muldiv_i64(dx, radius, 1000);
    let oy = muldiv_i64(dy, radius, 1000);
    let cx = clamp_i64(tfx + ox, -COORD_LIMIT, COORD_LIMIT);
    let cy = clamp_i64(tfy + oy, -COORD_LIMIT, COORD_LIMIT);
    proof {
        assert((cx as int, cy as int) == single_candidate(
            doc@.fields[t as int],
            pr as int,
            k as int,
        ));
    }
    let ok_within = circle_within(tfx, tfy, tfr, cx, cy, pr, PROJECT_GAP);
    let ok_outside = others_outside(doc, t, cx, cy, pr);
    let (ok_clear, md) = clear_and_nearest(doc, &project.id, cx, cy, pr);
    let ok_arrows = arrow_clear_at(doc, &project.id, cx, cy, pr);
    if ok_within && ok_outside && ok_clear && ok_arrows {
        proof {
            assert(single_accept(doc@, project@, t as int, cx as int, cy as int));
        }
        if md > st.3 {
            proof {
                lemma_single_region(doc@, project@, t as int, cx as int, cy as int);
            }
            (true, cx, cy, md)
        } else {
            st
        }
    } else {
        proof {
            assert(!single_accept(doc@, project@, t as int, cx as int, cy as int));
        }
        st
    }
}

/// One attempt of the relaxed single-field fallback spiral.
fn try_fallback_candidate(
    project: &Project,
    doc: &AppData,
    t: usize,
    dx: i64,
    dy: i64,
    k: i64,
) -> (r: Option<(i64, i64)>)
    requires
        doc@.wf(),
        project@.wf(),
        t < doc.fields.len(),
        resolved_targets(doc@.fields, project@.field_ids) == seq![t as int],
        0 <= k < 200,
        (dx as int, dy as int) == spiral_dir(k as nat),
    ensures
        match r {
            Some(c) => {
                &&& single_fallback_from(doc@, project@, t as int, k as int) == Some(
                    (c.0 as int, c.1 as int),
                )
                &&& mag(c.0 as int) <= COORD_LIMIT as int
                &&& mag(c.1 as int) <= COORD_LIMIT as int
                &&& region_valid(doc@.fields, project@.moved_to(c.0 as int, c.1 as int))
            },
            None => single_fallback_from(doc@, project@, t as int, k as int)
                == single_fallback_from(doc@, project@, t as int, k as int + 1),
        },
{
    let pr = project.radius;
    let tfx = doc.fields[t].position.0;
    let tfy = doc.fields[t].position.1;
    let tfr = doc.fields[t].radius;
    proof {
        assert(doc@.fields[t as int] == doc.fields@[t as int]@ && doc@.fields[t as int].wf());
        lemma_single_fallback_unfold(doc@, project@, t as int, k as int);
    }
    let c = spiral_point_at(tfx, tfy, dx, dy, k, 10);
    let ok_within = circle_within(tfx, tfy, tfr, c.0, c.1, pr, MEMBER_MARGIN);
    let ok_outside = others_outside(doc, t, c.0, c.1, pr);
    if ok_within && ok_outside {
        proof {
            assert(single_relaxed_accept(doc@, project@, t as int, c.0 as int, c.1 as int));
            lemma_single_region(doc@, project@, t as int, c.0 as int, c.1 as int);
        }
        Some(c)
    } else {
        proof {
            assert(!single_relaxed_accept(doc@, project@, t as int, c.0 as int, c.1 as int));
        }
        None
    }
}

/// Place a project with exactly one live membership.  Candidates on a
/// golden-angle spiral through the field's safe interior are scored by
/// their distance to the nearest existing project (an even spread); a
/// fallback pass drops the overlap and arrow demands but still holds the
/// region ones; the last resort is the field's own centre.
fn place_single(project: &Project, doc: &AppData, t: usize) -> (pos: (i64, i64))
    requires
        doc@.wf(),
        project@.wf(),
        t < doc.fields.len(),
        resolved_targets(doc@.fields, project@.field_ids) == seq![t as int],
    ensures
        mag(pos.0 as int) <= COORD_LIMIT as int,
        mag(pos.1 as int) <= COORD_LIMIT as int,
        (position_free(doc@, project@.moved_to(pos.0 as int, pos.1 as int)) && arrow_clear(
            doc@,
            project@.id,
            pos.0 as int,
            pos.1 as int,
            project@.radius,
        )) || region_valid(doc@.fields, project@.moved_to(pos.0 as int, pos.1 as int)) || (
        pos.0 as int,
        pos.1 as int,
        ) == (doc@.fields[t as int].x, doc@.fields[t as int].y),
        (pos.0 as int, pos.1 as int) == single_place(doc@, project@, t as int),
{
    let pr = project.radius;
    let tfx = doc.fields[t].position.0;
    let tfy = doc.fields[t].position.1;
    proof {
        assert(doc@.fields[t as int] == doc.fields@[t as int]@ && doc@.fields[t as int].wf());
        if project@.field_ids.len() == 0 {
            assert(resolved_targets(doc@.fields, project@.field_ids) =~= Seq::<int>::empty());
        }
        lemma_target_is_member(doc@.fields, project@.field_ids, 0);
    }
    let mut dx: i64 = 1000;
    let mut dy: i64 = 0;
    let mut st: (bool, i64, i64, i64) = (false, 0, 0, 0);
    for attempt in 0..200i64
        invariant
            doc@.wf(),
            project@.wf(),
            t < doc.fields.len(),
            resolved_targets(doc@.fields, project@.field_ids) == seq![t as int],
            pr == project@.radius,
            (dx as int, dy as int) == spiral_dir(attempt as nat),
            scored_from(doc@, project@, t as int, (false, 0int, 0int, 0int), 0) == scored_from(
                doc@,
                project@,
                t as int,
                (st.0, st.1 as int, st.2 as int, st.3 as int),
                attempt as int,
            ),
            st.0 ==> {
                &&& mag(st.1 as int) <= COORD_LIMIT as int
                &&& mag(st.2 as int) <= COORD_LIMIT as int
                &&& position_free(doc@, project@.moved_to(st.1 as int, st.2 as int))
                &&& arrow_clear(doc@, project@.id, st.1 as int, st.2 as int, project@.radius)
            },
            st.3 >= 0,
    {
        st = try_scored_candidate(project, doc, t, dx, dy, attempt, st);
        let nd = rot_step(dx, dy);
        dx = nd.0;
        dy = nd.1;
    }
    proof {
        lemma_scored_end(
            doc@,
            project@,
            t as int,
            (st.0, st.1 as int, st.2 as int, st.3 as int),
            200,
        );
    }
    if st.0 {
        return (st.1, st.2);
    }
    let mut dx2: i64 = 1000;
    let mut dy2: i64 = 0;
    for attempt in 0..200i64
        invariant
            doc@.wf(),
            project@.wf(),
            t < doc.fields.len(),
            resolved_targets(doc@.fields, project@.field_ids) == seq![t as int],
            pr == project@.radius,
            !scored_from(doc@, project@, t as int, (false, 0int, 0int, 0int), 0).0,
            (dx2 as int, dy2 as int) == spiral_dir(attempt as nat),
            single_fallback_from(doc@, project@, t as int, 0) == single_fallback_from(
                doc@,
                project@,
                t as int,
                attempt as int,
            ),
    {
        match try_fallback_candidate(project, doc, t, dx2, dy2, attempt) {
            Some(c) => {
                return c;
            },
            None => {},
        }
        let nd = rot_step(dx2, dy2);
        dx2 = nd.0;
        dy2 = nd.1;
    }
    proof {
        lemma_single_fallback_end(doc@, project@, t as int, 200);
    }
    (tfx, tfy)
}

/// In a single-target document, target containment with at least the
/// standard margin plus exclusion from every other field is region
/// validity.
proof fn lemma_single_region(doc: DocView, p: ProjectView, t: int, x: int, y: int)
    requires
        doc.wf(),
        0 <= t < doc.fields.len(),
        resolved_targets(doc.fields, p.field_ids) == seq![t],
        within_field(doc.fields[t], x, y, p.radius, MEMBER_MARGIN as int) || within_field(
            doc.fields[t],
            x,
            y,
            p.radius,
            PROJECT_GAP as int,
        ),
        forall|j: int|
            0 <= j < doc.fields.len() && j != t ==> outside_field(
                #[trigger] doc.fields[j],
                x,
                y,
                p.radius,
            ),
    ensures
        region_valid(doc.fields, p.moved_to(x, y)),
{
    if within_field(doc.fields[t], x, y, p.radius, PROJECT_GAP as int) {
        lemma_within_gap_margin(doc.fields[t], x, y, p.radius);
    }
    if p.field_ids.len() == 0 {
        assert(resolved_targets(doc.fields, p.field_ids) =~= Seq::<int>::empty());
    }
    lemma_target_is_member(doc.fields, p.field_ids, 0);
    assert(id_in(p.field_ids, doc.fields[t].id));
    assert forall|j: int| 0 <= j < doc.fields.len() implies field_rule_ok(
        #[trigger] doc.fields[j],
        p.field_ids,
        x,
        y,
        p.radius,
        MEMBER_MARGIN as int,
    ) by {
        if id_in(p.field_ids, doc.fields[j].id) {
            lemma_member_in_targets(doc.fields, p.field_ids, j);
            let k = choose|k: int|
                0 <= k < resolved_targets(doc.fields, p.field_ids).len() && resolved_targets(
                    doc.fields,
                    p.field_ids,
                )[k] == j;
            assert(seq![t][k] == t);
        }
    }
}

/// A candidate is acceptable for the multi-membership spiral: inside
/// every target with a ten-unit margin, fully outside every non-member
/// field, clear of all projects and of all arrows.
pub open spec fn multi_accept(
    doc: DocView,
    p: ProjectView,
    ts: Seq<int>,
    x: int,
    y: int,
) -> bool {
    &&& forall|k: int|
        0 <= k < ts.len() ==> within_field(doc.fields[#[trigger] ts[k]], x, y, p.radius, 10)
    &&& forall|j: int|
        0 <= j < doc.fields.len() && !id_in(p.field_ids, (#[trigger] doc.fields[j]).id)
            ==> outside_field(doc.fields[j], x, y, p.radius)
    &&& clear_of_projects(doc.projects, p.id, x, y, p.radius)
    &&& arrow_clear(doc, p.id, x, y, p.radius)
}

/// First acceptable sample of the multi-membership spiral, from attempt
/// `k` on.
#[verifier::opaque]
pub open spec fn multi_fit_from(
    doc: DocView,
    p: ProjectView,
    ts: Seq<int>,
    ax: int,
    ay: int,
    k: int,
) -> Option<(int, int)>
    decreases 100 - k,
{
    if k < 0 || k >= 100 {
        None
    } else {
        let c = spiral_point(ax, ay, k as nat, 8);
        if multi_accept(doc, p, ts, c.0, c.1) {
            Some(c)
        } else {
            multi_fit_from(doc, p, ts, ax, ay, k + 1)
        }
    }
}

/// One step of the multi-membership placement spiral.
pub proof fn lemma_multi_fit_unfold(
    doc: DocView,
    p: ProjectView,
    ts: Seq<int>,
    ax: int,
    ay: int,
    k: int,
)
    requires
        0 <= k < 100,
    ensures
        multi_fit_from(doc, p, ts, ax, ay, k) == ({
            let c = spiral_point(ax, ay, k as nat, 8);
            if multi_accept(doc, p, ts, c.0, c.1) {
                Some(c)
            } else {
                multi_fit_from(doc, p, ts, ax, ay, k + 1)
            }
        }),
{
    reveal_with_fuel(multi_fit_from, 2);
}

/// The multi-membership placement spiral is exhausted at one hundred
/// attempts.
pub proof fn lemma_multi_fit_end(
    doc: DocView,
    p: ProjectView,
    ts: Seq<int>,
    ax: int,
    ay: int,
    k: int,
)
    requires
        k >= 100,
    ensures
        multi_fit_from(doc, p, ts, ax, ay, k) is None,
{
    reveal_with_fuel(multi_fit_from, 2);
}

/// Where the multi-membership tier places a project: the first acceptable
/// spiral sample around the intersection anchor, or the anchor itself.
pub open spec fn multi_place(doc: DocView, p: ProjectView, ts: Seq<int>) -> (int, int) {
    let a = multi_anchor(doc.fields, ts, p.field_ids, p.radius);
    match multi_fit_from(doc, p, ts, a.0, a.1, 0) {
        Some(c) => c,
        None => a,
    }
}

fn try_multi_candidate(
    project: &Project,
    doc: &AppData,
    ts: &Vec<usize>,
    ax: i64,
    ay: i64,
    dx: i64,
    dy: i64,
    k: i64,
) -> (r: Option<(i64, i64)>)
    requires
        doc@.wf(),
        project@.wf(),
        ts@.len() > 0,
        forall|k0: int| 0 <= k0 < ts@.len() ==> (#[trigger] ts@[k0]) < doc.fields.len(),
        ts@.map_values(|u: usize| u as int) == resolved_targets(doc@.fields, project@.field_ids),
        mag(ax as int) <= COORD_LIMIT as int,
        mag(ay as int) <= COORD_LIMIT as int,
        0 <= k < 100,
        (dx as int, dy as int) == spiral_dir(k as nat),
    ensures
        match r {
            Some(c) => {
                &&& multi_fit_from(
                    doc@,
                    project@,
                    ts@.map_values(|u: usize| u as int),
                    ax as int,
                    ay as int,
                    k as int,
                ) == Some((c.0 as int, c.1 as int))
                &&& mag(c.0 as int) <= COORD_LIMIT as int
                &&& mag(c.1 as int) <= COORD_LIMIT as int
                &&& position_free(doc@, project@.moved_to(c.0 as int, c.1 as int))
                &&& arrow_clear(doc@, project@.id, c.0 as int, c.1 as int, project@.radius)
            },
            None => multi_fit_from(
                doc@,
                project@,
                ts@.map_values(|u: usize| u as int),
                ax as int,
                ay as int,
                k as int,
            ) == multi_fit_from(
                doc@,
                project@,
                ts@.map_values(|u: usize| u as int),
                ax as int,
                ay as int,
                k as int + 1,
            ),
        },
{
    let ghost tseq = ts@.map_values(|u: usize| u as int);
    let pr = project.radius;
    let c = spiral_point_at(ax, ay, dx, dy, k, 8);
    proof {
        lemma_multi_fit_unfold(doc@, project@, tseq, ax as int, ay as int, k as int);
    }
    let ok_within = targets_within(doc, ts, c.0, c.1, pr, 10);
    let ok_outside = nonmembers_outside(doc, &project.field_ids, c.0, c.1, pr);
    let ok_clear = clear_of_projects_at(doc, &project.id, c.0, c.1, pr);
    let ok_arrows = arrow_clear_at(doc, &project.id, c.0, c.1, pr);
    if ok_within && ok_outside && ok_clear && ok_arrows {
        proof {
            lemma_multi_region(doc@, project@, tseq, c.0 as int, c.1 as int);
            assert(multi_accept(doc@, project@, tseq, c.0 as int, c.1 as int));
        }
        Some(c)
    } else {
        proof {
            if !ok_within {
                let k0 = choose|k0: int|
                    0 <= k0 < ts@.len() && !within_field(
                        doc@.fields[ts@[k0] as int],
                        c.0 as int,
                        c.1 as int,
                        pr as int,
                        10,
                    );
                assert(tseq[k0] == ts@[k0] as int);
                assert(!within_field(doc@.fields[tseq[k0]], c.0 as int, c.1 as int, pr as int, 10));
            }
            assert(!multi_accept(doc@, project@, tseq, c.0 as int, c.1 as int));
        }
        None
    }
}

/// Place a project with two or more live memberships: relax an anchor
/// into the targets' intersection, then spiral from it to a point inside
/// every target, outside every other field, and clear of projects and
/// arrows; the anchor itself is the fallback.
fn place_multi(project: &Project, doc: &AppData, ts: &Vec<usize>) -> (pos: (i64, i64))
    requires
        doc@.wf(),
        project@.wf(),
        ts@.len() > 0,
        forall|k: int| 0 <= k < ts@.len() ==> (#[trigger] ts@[k]) < doc.fields.len(),
        ts@.map_values(|u: usize| u as int) == resolved_targets(doc@.fields, project@.field_ids),
    ensures
        mag(pos.0 as int) <= COORD_LIMIT as int,
        mag(pos.1 as int) <= COORD_LIMIT as int,
        (position_free(doc@, project@.moved_to(pos.0 as int, pos.1 as int)) && arrow_clear(
            doc@,
            project@.id,
            pos.0 as int,
            pos.1 as int,
            project@.radius,
        )) || (pos.0 as int, pos.1 as int) == multi_anchor(
            doc@.fields,
            ts@.map_values(|u: usize| u as int),
            project@.field_ids,
            project@.radius,
        ),
        (pos.0 as int, pos.1 as int) == multi_place(
            doc@,
            project@,
            ts@.map_values(|u: usize| u as int),
        ),
{
    let ghost tseq = ts@.map_values(|u: usize| u as int);
    let pr = project.radius;
    let a = intersection_anchor(doc, ts, &project.field_ids, pr);
    let mut dx: i64 = 1000;
    let mut dy: i64 = 0;
    for attempt in 0..100i64
        invariant
            doc@.wf(),
            project@.wf(),
            ts@.len() > 0,
            tseq == ts@.map_values(|u: usize| u as int),
            forall|k0: int| 0 <= k0 < ts@.len() ==> (#[trigger] ts@[k0]) < doc.fields.len(),
            tseq == resolved_targets(doc@.fields, project@.field_ids),
            pr == project@.radius,
            mag(a.0 as int) <= COORD_LIMIT as int,
            mag(a.1 as int) <= COORD_LIMIT as int,
            (a.0 as int, a.1 as int) == multi_anchor(
                doc@.fields,
                tseq,
                project@.field_ids,
                pr as int,
            ),
            (dx as int, dy as int) == spiral_dir(attempt as nat),
            multi_fit_from(doc@, project@, tseq, a.0 as int, a.1 as int, 0) == multi_fit_from(
                doc@,
                project@,
                tseq,
                a.0 as int,
                a.1 as int,
                attempt as int,
            ),
    {
        match try_multi_candidate(project, doc, ts, a.0, a.1, dx, dy, attempt) {
            Some(c) => {
                return c;
            },
            None => {},
        }
        let nd = rot_step(dx, dy);
        dx = nd.0;
        dy = nd.1;
    }
    proof {
        lemma_multi_fit_end(doc@, project@, tseq, a.0 as int, a.1 as int, 100);
    }
    a
}

/// Containment in every resolved target with margin ten plus exclusion
/// from every non-member field is region validity.
proof fn lemma_multi_region(doc: DocView, p: ProjectView, tseq: Seq<int>, x: int, y: int)
    requires
        doc.wf(),
        tseq == resolved_targets(doc.fields, p.field_ids),
        tseq.len() > 0,
        forall|k: int|
            0 <= k < tseq.len() ==> within_field(doc.fields[#[trigger] tseq[k]], x, y, p.radius, 10),
        forall|j: int|
            0 <= j < doc.fields.len() && !id_in(p.field_ids, (#[trigger] doc.fields[j]).id)
                ==> outside_field(doc.fields[j], x, y, p.radius),
    ensures
        region_valid(doc.fields, p.moved_to(x, y)),
{
    lemma_resolved_targets(doc.fields, p.field_ids);
    if p.field_ids.len() == 0 {
        assert(resolved_targets(doc.fields, p.field_ids) =~= Seq::<int>::empty());
    }
    assert forall|j: int| 0 <= j < doc.fields.len() implies field_rule_ok(
        #[trigger] doc.fields[j],
        p.field_ids,
        x,
        y,
        p.radius,
        MEMBER_MARGIN as int,
    ) by {
        if id_in(p.field_ids, doc.fields[j].id) {
            lemma_member_in_targets(doc.fields, p.field_ids, j);
            let k = choose|k: int| 0 <= k < tseq.len() && tseq[k] == j;
            assert(within_field(doc.fields[tseq[k]], x, y, p.radius, 10));
            lemma_within_ten_margin(doc.fields[j], x, y, p.radius);
        }
    }
}

/// Where the placement search puts a project: the full functional
/// description of [`compute_position`].  Being a function of the document
/// and project alone, it is also the engine's determinism guarantee: no
/// clock, randomness or ambient state takes part.
pub open spec fn place_spec(doc: DocView, p: ProjectView) -> (int, int) {
    let ts = resolved_targets(doc.fields, p.field_ids);
    if ts.len() == 0 {
        outside_place(doc, p)
    } else if ts.len() == 1 {
        single_place(doc, p, ts[0])
    } else {
        multi_place(doc, p, ts)
    }
}

/// Compute a position for a project, tiered by how many of its
/// memberships resolve: none places it outside all fields, one spreads it
/// inside its field, several anchor it in the fields' intersection.  The
/// result is always inside the coordinate range, and is region-valid
/// unless even the tier's fallback (the bounding-box corner, the field
/// centre, the intersection anchor) could not achieve that.
pub fn compute_position(project: &Project, doc: &AppData) -> (pos: (i64, i64))
    requires
        doc@.wf(),
        project@.wf(),
    ensures
        mag(pos.0 as int) <= COORD_LIMIT as int,
        mag(pos.1 as int) <= COORD_LIMIT as int,
        ({
            let ts = resolved_targets(doc@.fields, project@.field_ids);
            let moved = project@.moved_to(pos.0 as int, pos.1 as int);
            if ts.len() == 0 {
                position_free(doc@, moved) || (pos.0 as int, pos.1 as int) == outfield_start(
                    doc@.fields,
                )
            } else if ts.len() == 1 {
                (position_free(doc@, moved) && arrow_clear(
                    doc@,
                    project@.id,
                    pos.0 as int,
                    pos.1 as int,
                    project@.radius,
                )) || region_valid(doc@.fields, moved) || (pos.0 as int, pos.1 as int) == (
                    doc@.fields[ts[0]].x,
                    doc@.fields[ts[0]].y,
                )
            } else {
                (position_free(doc@, moved) && arrow_clear(
                    doc@,
                    project@.id,
                    pos.0 as int,
                    pos.1 as int,
                    project@.radius,
                )) || (pos.0 as int, pos.1 as int) == multi_anchor(
                    doc@.fields,
                    ts,
                    project@.field_ids,
                    project@.radius,
                )
            }
        }),
        (pos.0 as int, pos.1 as int) == place_spec(doc@, project@),
{
    let ts = resolve_targets(doc, &project.field_ids);
    if ts.len() == 0 {
        place_outside(project, doc)
    } else if ts.len() == 1 {
        let t = ts[0];
        proof {
            assert(ts@.map_values(|u: usize| u as int) =~= seq![t as int]);
        }
        place_single(project, doc, t)
    } else {
        place_multi(project, doc, &ts)
    }
}

} // verus!
