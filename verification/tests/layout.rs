use venncv::balance::balance_three_fields;
use venncv::edit::{delete_field, delete_project, reorder_fields};
use venncv::models::{AppData, Project, ProjectRelation, ProjectStatus, RelationType, ResearchField};
use venncv::place::{compute_position, nearest_valid_position};
use venncv::region::{is_position_valid, is_valid_region};
use venncv::validate::{
    expand_fields_for_projects, recalculate_all_project_positions_with_jitter, relax_and_validate,
};

fn field(id: &str, x: i64, y: i64, r: i64) -> ResearchField {
    ResearchField {
        id: id.to_string(),
        name: id.to_string(),
        description: String::new(),
        position: (x, y),
        radius: r,
    }
}

fn project(id: &str, ids: &[&str], x: i64, y: i64, r: i64) -> Project {
    Project {
        id: id.to_string(),
        name: id.to_string(),
        description: String::new(),
        status: ProjectStatus::ToBeStarted,
        field_ids: ids.iter().map(|s| s.to_string()).collect(),
        position: (x, y),
        radius: r,
        completion_percentage: 0,
    }
}

fn doc(fields: Vec<ResearchField>, projects: Vec<Project>) -> AppData {
    AppData { fields, projects, relations: Vec::new(), relation_tags: Vec::new() }
}

fn d2(a: (i64, i64), b: (i64, i64)) -> i64 {
    (a.0 - b.0) * (a.0 - b.0) + (a.1 - b.1) * (a.1 - b.1)
}

#[test]
fn single_field_placement_contained() {
    // field at (400, 200), radius 200; a new twenty-unit project must land
    // with distance-from-centre + radius at most 195
    let d = doc(vec![field("f1", 400, 200, 200)], vec![]);
    let p = project("p", &["f1"], 0, 0, 20);
    let pos = compute_position(&p, &d);
    assert!(d2(pos, (400, 200)) <= 175 * 175);
}

#[test]
fn two_field_placement_in_lens() {
    // two overlapping fields; a project of both must land inside both
    let d = doc(vec![field("f1", 0, 0, 200), field("f2", 300, 0, 200)], vec![]);
    let mut p = project("p", &["f1", "f2"], 0, 0, 20);
    let pos = compute_position(&p, &d);
    assert!(d2(pos, (0, 0)) <= 175 * 175);
    assert!(d2(pos, (300, 0)) <= 175 * 175);
    p.position = pos;
    assert!(is_valid_region(&p, &d));
}

#[test]
fn ten_projects_spread_and_stay_contained() {
    let mut d = doc(vec![field("f1", 400, 200, 200)], vec![]);
    for k in 0..10 {
        let mut p = project(&format!("p{}", k), &["f1"], 0, 0, 20);
        p.position = compute_position(&p, &d);
        d.projects.push(p);
    }
    relax_and_validate(&mut d);
    let fr = d.fields[0].radius;
    for a in 0..d.projects.len() {
        // contained: distance + 20 <= field radius - 5
        let lim = fr - 25;
        assert!(d2(d.projects[a].position, d.fields[0].position) <= lim * lim);
        for b in (a + 1)..d.projects.len() {
            // spread: at least 20 + 20 + 15 apart
            assert!(d2(d.projects[a].position, d.projects[b].position) >= 55 * 55);
        }
    }
}

#[test]
fn heavy_shared_membership_shrinks_triangle() {
    // five of six projects in all three fields
    let mut shared = doc(
        vec![field("a", 0, 0, 200), field("b", 10, 0, 200), field("c", 20, 0, 200)],
        (0..6)
            .map(|k| {
                if k == 0 {
                    project("p0", &["a"], 0, 0, 20)
                } else {
                    project(&format!("p{}", k), &["a", "b", "c"], 0, 0, 20)
                }
            })
            .collect(),
    );
    balance_three_fields(&mut shared);
    // counts: a in 6, b and c in 5 of 6 projects; all-three share 5 of 6
    assert_eq!(shared.fields[0].radius, 260);
    assert_eq!(shared.fields[1].radius, 246);
    assert_eq!(shared.fields[2].radius, 246);
    assert_eq!(shared.fields[0].position, (400, 320));
    assert_eq!(shared.fields[1].position, (469, 440));
    assert_eq!(shared.fields[2].position, (331, 440));

    // baseline: six projects, two in each field, none shared
    let mut split = doc(
        vec![field("a", 0, 0, 200), field("b", 10, 0, 200), field("c", 20, 0, 200)],
        (0..6)
            .map(|k| {
                let fid = ["a", "b", "c"][k % 3];
                project(&format!("p{}", k), &[fid], 0, 0, 20)
            })
            .collect(),
    );
    balance_three_fields(&mut split);
    assert_eq!(split.fields[0].radius, 206);
    assert_eq!(split.fields[0].position, (400, 280));
    assert_eq!(split.fields[1].position, (503, 460));
    assert_eq!(split.fields[2].position, (297, 460));

    // the shared layout pulls the centres closer together
    let shared_side = d2(shared.fields[0].position, shared.fields[1].position);
    let split_side = d2(split.fields[0].position, split.fields[1].position);
    assert!(shared_side < split_side);
}

#[test]
fn deleting_field_cascades_to_memberships() {
    let mut d = doc(
        vec![field("f1", 0, 0, 200), field("f2", 500, 0, 200)],
        vec![
            project("p1", &["f1", "f2"], 0, 0, 20),
            project("p2", &["f2"], 500, 0, 20),
            project("p3", &[], 900, 0, 20),
        ],
    );
    delete_field(&mut d, &"f2".to_string());
    assert_eq!(d.fields.len(), 1);
    assert_eq!(d.fields[0].id, "f1");
    for p in &d.projects {
        assert!(!p.field_ids.contains(&"f2".to_string()));
    }
    assert_eq!(d.projects[0].field_ids, vec!["f1".to_string()]);
    assert!(d.projects[1].field_ids.is_empty());
    // re-validation after the deletion settles the layout without panicking
    relax_and_validate(&mut d);
    assert_eq!(d.projects.len(), 3);
}

#[test]
fn validating_a_valid_document_changes_nothing() {
    let mut d = doc(
        vec![field("f1", 0, 0, 200)],
        vec![project("p1", &["f1"], -50, 0, 20), project("p2", &["f1"], 50, 0, 20)],
    );
    let before: Vec<(i64, i64)> = d.projects.iter().map(|p| p.position).collect();
    let changed = relax_and_validate(&mut d);
    assert!(!changed);
    let after: Vec<(i64, i64)> = d.projects.iter().map(|p| p.position).collect();
    assert_eq!(before, after);
    assert_eq!(d.fields[0].radius, 200);
    // and a second run still changes nothing
    assert!(!relax_and_validate(&mut d));
}

#[test]
fn placement_is_deterministic() {
    let d = doc(
        vec![field("f1", 400, 200, 200), field("f2", 900, 200, 150)],
        vec![project("q", &["f1"], 380, 190, 20)],
    );
    let p = project("p", &["f1"], 0, 0, 20);
    assert_eq!(compute_position(&p, &d), compute_position(&p, &d));
    // and on an identically rebuilt document
    let d_again = doc(
        vec![field("f1", 400, 200, 200), field("f2", 900, 200, 150)],
        vec![project("q", &["f1"], 380, 190, 20)],
    );
    assert_eq!(compute_position(&p, &d), compute_position(&p, &d_again));
}

#[test]
fn jitter_relayout_is_deterministic_per_seed() {
    let make = || {
        doc(
            vec![field("f1", 400, 200, 200)],
            vec![
                project("p1", &["f1"], 400, 200, 20),
                project("p2", &["f1"], 400, 200, 20),
            ],
        )
    };
    let mut a = make();
    let mut b = make();
    recalculate_all_project_positions_with_jitter(&mut a, 12345);
    recalculate_all_project_positions_with_jitter(&mut b, 12345);
    let pa: Vec<(i64, i64)> = a.projects.iter().map(|p| p.position).collect();
    let pb: Vec<(i64, i64)> = b.projects.iter().map(|p| p.position).collect();
    assert_eq!(pa, pb);
}

#[test]
fn nearest_position_keeps_a_valid_spot() {
    let d = doc(vec![field("f1", 0, 0, 200)], vec![]);
    let p = project("p", &["f1"], 10, 10, 20);
    assert_eq!(nearest_valid_position(&p, &d), (10, 10));
}

#[test]
fn nearest_position_restores_region_validity() {
    let d = doc(vec![field("f1", 0, 0, 200)], vec![]);
    // dragged far outside its field
    let mut p = project("p", &["f1"], 400, 0, 20);
    let pos = nearest_valid_position(&p, &d);
    p.position = pos;
    assert!(is_position_valid(&p, &d));
    // and the repaired position leans toward where the drag ended
    assert!(pos.0 > 0);
}

#[test]
fn membership_less_projects_placed_outside_all_fields() {
    let d = doc(vec![field("f1", 400, 200, 200), field("f2", 200, 500, 200)], vec![]);
    let mut p = project("p", &[], 0, 0, 20);
    p.position = compute_position(&p, &d);
    assert!(is_valid_region(&p, &d));
    assert!(d2(p.position, (400, 200)) >= 220 * 220);
    assert!(d2(p.position, (200, 500)) >= 220 * 220);
}

#[test]
fn overfull_field_grows() {
    // two hundred-unit projects demand more than two fifths of the area
    let mut d = doc(
        vec![field("f1", 0, 0, 200), field("f2", 900, 0, 200)],
        vec![
            project("p1", &["f1"], 0, 0, 100),
            project("p2", &["f1"], 0, 0, 100),
        ],
    );
    expand_fields_for_projects(&mut d);
    assert_eq!(d.fields[0].radius, 230);
    assert_eq!(d.fields[1].radius, 200);
}

#[test]
fn reordering_fields_is_a_splice() {
    let mut d = doc(
        vec![field("a", 0, 0, 100), field("b", 300, 0, 100), field("c", 600, 0, 100)],
        vec![],
    );
    reorder_fields(&mut d, 0, 3);
    let order: Vec<&str> = d.fields.iter().map(|f| f.id.as_str()).collect();
    assert_eq!(order, vec!["b", "c", "a"]);
    reorder_fields(&mut d, 2, 0);
    let order: Vec<&str> = d.fields.iter().map(|f| f.id.as_str()).collect();
    assert_eq!(order, vec!["a", "b", "c"]);
}

#[test]
fn deleting_project_cascades_to_relations() {
    let mut d = doc(
        vec![],
        vec![project("p1", &[], 0, 0, 20), project("p2", &[], 100, 0, 20)],
    );
    d.relations.push(ProjectRelation {
        from_id: "p1".to_string(),
        to_id: "p2".to_string(),
        relation_type: RelationType::Direct,
        tags: Vec::new(),
        color: [0, 0, 0, 255],
        width: 2000,
    });
    d.relations.push(ProjectRelation {
        from_id: "p2".to_string(),
        to_id: "ghost".to_string(),
        relation_type: RelationType::Indirect,
        tags: Vec::new(),
        color: [0, 0, 0, 255],
        width: 2000,
    });
    delete_project(&mut d, &"p1".to_string());
    assert_eq!(d.projects.len(), 1);
    assert_eq!(d.projects[0].id, "p2");
    assert_eq!(d.relations.len(), 1);
    assert_eq!(d.relations[0].from_id, "p2");
}

#[test]
fn placement_avoids_relation_arrows() {
    // two related projects span the field; a new member must keep clear
    // of the arrow corridor between them
    let mut d = doc(
        vec![field("f1", 0, 0, 200)],
        vec![project("p1", &["f1"], -150, 0, 10), project("p2", &["f1"], 150, 0, 10)],
    );
    d.relations.push(ProjectRelation {
        from_id: "p1".to_string(),
        to_id: "p2".to_string(),
        relation_type: RelationType::Direct,
        tags: Vec::new(),
        color: [0, 0, 0, 255],
        width: 2000,
    });
    let p = project("p3", &["f1"], 0, 0, 20);
    let pos = compute_position(&p, &d);
    // inside the field
    assert!(d2(pos, (0, 0)) <= 175 * 175);
    // and outside the forty-five unit corridor of the arrow
    assert!(!venncv::geom::point_near_segment(pos.0, pos.1, -150, 0, 150, 0, 45));
}

#[test]
fn relaxation_separates_overlapping_pair() {
    // two projects dropped on almost the same spot inside a roomy field
    let mut d = doc(
        vec![field("f1", 0, 0, 200)],
        vec![project("p1", &["f1"], -3, 0, 20), project("p2", &["f1"], 3, 0, 20)],
    );
    relax_and_validate(&mut d);
    // the damped correction approaches the full gap from below; the pair
    // ends spread almost all the way apart and still region-valid
    assert!(d2(d.projects[0].position, d.projects[1].position) >= 50 * 50);
    for p in &d.projects {
        assert!(is_valid_region(p, &d));
    }
}
