use venncv::models::{
    default_auto_save, default_auto_save_interval, default_default_zoom,
    default_field_border_width, default_max_history_size, default_project_border_width,
    default_relation_color, default_relation_width, default_show_project_names,
    default_show_project_numbers, default_visualization_bg_color, AppData, AppSettings,
    ProjectRelation, ProjectStatus, RelationType, UserConfig, UserConfigEntry,
};
use venncv::models::completion_percentage_to_color;
use venncv::naming::{next_project_number, parse_project_id};
use venncv::users::{create_user, verify_user};

#[test]
fn status_colors() {
    assert_eq!(ProjectStatus::Published.color(), [76, 175, 80, 255]);
    assert_eq!(ProjectStatus::Submitted.color(), [33, 150, 243, 255]);
    assert_eq!(ProjectStatus::HighPriority.color(), [244, 67, 54, 255]);
    assert_eq!(ProjectStatus::SteadyProgress.color(), [255, 152, 0, 255]);
    assert_eq!(ProjectStatus::ToBeStarted.color(), [255, 255, 255, 255]);
}

#[test]
fn status_names() {
    assert_eq!(ProjectStatus::Published.name(), "已发表");
    assert_eq!(ProjectStatus::Submitted.name(), "投稿中");
    assert_eq!(ProjectStatus::HighPriority.name(), "优先做");
    assert_eq!(ProjectStatus::SteadyProgress.name(), "进行中");
    assert_eq!(ProjectStatus::ToBeStarted.name(), "待启动");
}

#[test]
fn relation_defaults() {
    assert_eq!(default_relation_color(), [0, 0, 0, 255]);
    assert_eq!(default_relation_width(), 2000);
    let r = ProjectRelation::default();
    assert_eq!(r.from_id, "");
    assert_eq!(r.to_id, "");
    assert!(matches!(r.relation_type, RelationType::Direct));
    assert!(r.tags.is_empty());
    assert_eq!(r.color, [0, 0, 0, 255]);
    assert_eq!(r.width, 2000);
}

#[test]
fn settings_defaults() {
    assert_eq!(default_auto_save(), false);
    assert_eq!(default_auto_save_interval(), 300);
    assert_eq!(default_default_zoom(), 1000);
    assert_eq!(default_max_history_size(), 50);
    assert_eq!(default_show_project_numbers(), true);
    assert_eq!(default_show_project_names(), true);
    assert_eq!(default_field_border_width(), 2000);
    assert_eq!(default_project_border_width(), 3000);
    assert_eq!(default_visualization_bg_color(), [255, 255, 255, 255]);
    let s = AppSettings::default();
    assert_eq!(s.auto_save, false);
    assert_eq!(s.auto_save_interval, 300);
    assert_eq!(s.default_zoom, 1000);
    assert_eq!(s.max_history_size, 50);
    assert!(s.show_project_numbers && s.show_project_names);
    assert_eq!(s.field_border_width, 2000);
    assert_eq!(s.project_border_width, 3000);
    assert_eq!(s.visualization_bg_color, [255, 255, 255, 255]);
}

#[test]
fn empty_document() {
    let d = AppData::default_empty();
    assert!(d.fields.is_empty());
    assert!(d.projects.is_empty());
    assert!(d.relations.is_empty());
    assert!(d.relation_tags.is_empty());
}

#[test]
fn sample_document() {
    let d = AppData::default();
    assert_eq!(d.fields.len(), 3);
    assert_eq!(d.fields[0].id, "rna_structure");
    assert_eq!(d.fields[0].position, (400, 200));
    assert_eq!(d.fields[0].radius, 200);
    assert_eq!(d.fields[1].id, "microbial_ecology");
    assert_eq!(d.fields[1].position, (200, 500));
    assert_eq!(d.fields[2].id, "bioinfo_tools");
    assert_eq!(d.fields[2].position, (600, 500));
    assert_eq!(d.projects.len(), 2);
    assert_eq!(d.projects[0].id, "project_1");
    assert_eq!(d.projects[0].field_ids, vec!["bioinfo_tools".to_string()]);
    assert_eq!(d.projects[0].position, (550, 450));
    assert_eq!(d.projects[0].radius, 20);
    assert_eq!(d.projects[0].completion_percentage, 100);
    assert_eq!(d.projects[1].id, "project_2");
    assert_eq!(d.relations.len(), 1);
    assert_eq!(d.relations[0].from_id, "project_1");
    assert_eq!(d.relations[0].to_id, "project_2");
}

#[test]
fn completion_colors() {
    assert_eq!(completion_percentage_to_color(0), [255, 0, 0, 255]);
    assert_eq!(completion_percentage_to_color(25), [255, 127, 0, 255]);
    assert_eq!(completion_percentage_to_color(50), [255, 255, 0, 255]);
    assert_eq!(completion_percentage_to_color(75), [127, 255, 0, 255]);
    assert_eq!(completion_percentage_to_color(100), [0, 255, 0, 255]);
    // values over one hundred count as complete
    assert_eq!(completion_percentage_to_color(250), [0, 255, 0, 255]);
}

fn registry() -> UserConfig {
    UserConfig {
        users: vec![UserConfigEntry {
            username: "admin".to_string(),
            password_hash: "admin".to_string(),
            data_storage_path: Some("users/admin".to_string()),
            last_edited_file: None,
        }],
    }
}

#[test]
fn verify_user_accepts_matching_credentials() {
    let cfg = registry();
    let r = verify_user(&cfg, &"admin".to_string(), &"admin".to_string());
    assert_eq!(r, Some((Some("users/admin".to_string()), None)));
}

#[test]
fn verify_user_rejects_wrong_password() {
    let cfg = registry();
    assert_eq!(verify_user(&cfg, &"admin".to_string(), &"nope".to_string()), None);
    assert_eq!(verify_user(&cfg, &"nobody".to_string(), &"admin".to_string()), None);
}

#[test]
fn create_user_appends_with_directory() {
    let mut cfg = registry();
    let created = create_user(&mut cfg, &"alice".to_string(), &"pw1".to_string());
    assert!(created);
    assert_eq!(cfg.users.len(), 2);
    assert_eq!(cfg.users[1].username, "alice");
    assert_eq!(cfg.users[1].data_storage_path, Some("users/alice".to_string()));
    assert_eq!(cfg.users[1].last_edited_file, None);
}

#[test]
fn create_user_refuses_taken_name() {
    let mut cfg = registry();
    let created = create_user(&mut cfg, &"admin".to_string(), &"other".to_string());
    assert!(!created);
    assert_eq!(cfg.users.len(), 1);
}

#[test]
fn automatic_project_numbering() {
    assert_eq!(parse_project_id(&"project_7".to_string()), Some(7));
    assert_eq!(parse_project_id(&"project_123".to_string()), Some(123));
    assert_eq!(parse_project_id(&"project_".to_string()), None);
    assert_eq!(parse_project_id(&"project_x7".to_string()), None);
    assert_eq!(parse_project_id(&"field_3".to_string()), None);

    let empty = AppData::default_empty();
    assert_eq!(next_project_number(&empty), 1);

    let sample = AppData::default();
    // the sample holds project_1 and project_2
    assert_eq!(next_project_number(&sample), 3);
}
