use venncv::geom::point_near_segment;
use venncv::models::{AppData, Project, ProjectStatus, ResearchField};
use venncv::region::{any_project_overlap, is_position_valid, is_valid_region};

fn field(id: &str, x: i64, y: i64, r: i64) -> ResearchField {
    ResearchField {
        id: id.to_string(),
        name: id.to_string(),
        description: String::new(),
        position: (x, y),
        radius: r,
    }
}

fn project(id: &str, ids: &[&str], x: i64, y: i64, r: i64) -> Project {
    Project {
        id: id.to_string(),
        name: id.to_string(),
        description: String::new(),
        status: ProjectStatus::ToBeStarted,
        field_ids: ids.iter().map(|s| s.to_string()).collect(),
        position: (x, y),
        radius: r,
        completion_percentage: 0,
    }
}

fn doc(fields: Vec<ResearchField>, projects: Vec<Project>) -> AppData {
    AppData { fields, projects, relations: Vec::new(), relation_tags: Vec::new() }
}

#[test]
fn segment_proximity() {
    // ten units above the middle of a horizontal segment
    assert!(point_near_segment(50, 10, 0, 0, 100, 0, 20));
    // thirty units above it, outside a twenty-unit corridor
    assert!(!point_near_segment(50, 30, 0, 0, 100, 0, 20));
    // beyond the end, the nearest point is the endpoint itself
    assert!(!point_near_segment(150, 0, 0, 0, 100, 0, 40));
    assert!(point_near_segment(150, 0, 0, 0, 100, 0, 60));
    // a unit-length segment still takes part
    assert!(point_near_segment(0, 5, 0, 0, 1, 0, 10));
    // a zero-length segment is ignored
    assert!(!point_near_segment(0, 0, 5, 5, 5, 5, 100));
}

#[test]
fn region_containment_margin() {
    let d = doc(vec![field("f1", 0, 0, 200)], vec![]);
    // centre of the field: well inside
    assert!(is_valid_region(&project("p", &["f1"], 0, 0, 20), &d));
    // distance 175 + radius 20 == 195 == 200 - 5: exactly on the margin
    assert!(is_valid_region(&project("p", &["f1"], 175, 0, 20), &d));
    // one unit further: the margin is violated
    assert!(!is_valid_region(&project("p", &["f1"], 176, 0, 20), &d));
}

#[test]
fn region_exclusion() {
    let d = doc(vec![field("f1", 0, 0, 200)], vec![]);
    // a non-member must stay fully outside: distance 220 == 200 + 20
    assert!(is_valid_region(&project("p", &[], 220, 0, 20), &d));
    assert!(!is_valid_region(&project("p", &[], 219, 0, 20), &d));
    // membership of another (dangling) field demands the same exclusion
    assert!(is_valid_region(&project("p", &["ghostly"], 220, 0, 20), &d));
    assert!(!is_valid_region(&project("p", &["ghostly"], 219, 0, 20), &d));
}

#[test]
fn position_validity_includes_spacing() {
    let d = doc(
        vec![field("f1", 0, 0, 200)],
        vec![project("other", &["f1"], 0, 0, 20)],
    );
    // region-valid but only 50 units from the other project (needs 55)
    let p = project("p", &["f1"], 50, 0, 20);
    assert!(is_valid_region(&p, &d));
    assert!(!is_position_valid(&p, &d));
    // 55 units away is enough
    let q = project("p", &["f1"], 55, 0, 20);
    assert!(is_position_valid(&q, &d));
}

#[test]
fn overlap_detection() {
    let close = doc(
        vec![],
        vec![project("a", &[], 0, 0, 20), project("b", &[], 54, 0, 20)],
    );
    assert!(any_project_overlap(&close, 15));
    let spaced = doc(
        vec![],
        vec![project("a", &[], 0, 0, 20), project("b", &[], 55, 0, 20)],
    );
    assert!(!any_project_overlap(&spaced, 15));
}
