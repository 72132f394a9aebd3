//! Document model: fields, projects, relations, users and settings.
//!
//! The document keeps its fields and projects in insertion-ordered vectors
//! whose entries carry their own string id; ids are unique within a
//! well-formed document.  Positions are integer drawing units and a
//! relation's line width and the zoom-like settings are stored in
//! thousandths of a unit, so the model stays within exact integer
//! arithmetic.

use crate::geom::{COORD_LIMIT, RADIUS_LIMIT};
use vstd::prelude::*;

verus! {

/// Lifecycle stage of a project; each stage has a fixed display colour.
#[derive(Clone, Copy, PartialEq, Eq, Structural, Debug)]
pub enum ProjectStatus {
    Published,
    Submitted,
    HighPriority,
    SteadyProgress,
    ToBeStarted,
}

/// Display colour (RGBA) of a status.
pub open spec fn status_color(s: ProjectStatus) -> Seq<u8> {
    match s {
        ProjectStatus::Published => seq![76u8, 175u8, 80u8, 255u8],
        ProjectStatus::Submitted => seq![33u8, 150u8, 243u8, 255u8],
        ProjectStatus::HighPriority => seq![244u8, 67u8, 54u8, 255u8],
        ProjectStatus::SteadyProgress => seq![255u8, 152u8, 0u8, 255u8],
        ProjectStatus::ToBeStarted => seq![255u8, 255u8, 255u8, 255u8],
    }
}

/// Display name of a status.
pub open spec fn status_name(s: ProjectStatus) -> Seq<char> {
    match s {
        ProjectStatus::Published => "已发表"@,
        ProjectStatus::Submitted => "投稿中"@,
        ProjectStatus::HighPriority => "优先做"@,
        ProjectStatus::SteadyProgress => "进行中"@,
        ProjectStatus::ToBeStarted => "待启动"@,
    }
}

impl ProjectStatus {
    pub fn color(&self) -> (c: [u8; 4])
        ensures
            c@ == status_color(*self),
    {
        let c: [u8; 4] = match self {
            ProjectStatus::Published => [76, 175, 80, 255],
            ProjectStatus::Submitted => [33, 150, 243, 255],
            ProjectStatus::HighPriority => [244, 67, 54, 255],
            ProjectStatus::SteadyProgress => [255, 152, 0, 255],
            ProjectStatus::ToBeStarted => [255, 255, 255, 255],
        };
        proof {
            assert(c@ =~= status_color(*self));
        }
        c
    }

    pub fn name(&self) -> (n: &'static str)
        ensures
            n@ == status_name(*self),
    {
        match self {
            ProjectStatus::Published => "已发表",
            ProjectStatus::Submitted => "投稿中",
            ProjectStatus::HighPriority => "优先做",
            ProjectStatus::SteadyProgress => "进行中",
            ProjectStatus::ToBeStarted => "待启动",
        }
    }
}

/// Border colour for a completion percentage: red at zero, yellow at
/// fifty, green at one hundred, blending linearly between; percentages
/// over one hundred count as complete.
pub open spec fn completion_color(pct: int) -> Seq<u8> {
    let p = if pct > 100 {
        100
    } else {
        pct
    };
    if p <= 50 {
        seq![255u8, (255 * p / 50) as u8, 0u8, 255u8]
    } else {
        seq![(255 * (100 - p) / 50) as u8, 255u8, 0u8, 255u8]
    }
}

/// Compute the completion border colour (RGBA).
pub fn completion_percentage_to_color(percentage: u32) -> (c: [u8; 4])
    ensures
        c@ == completion_color(percentage as int),
{
    let p: u32 = if percentage > 100 {
        100
    } else {
        percentage
    };
    let c: [u8; 4] = if p <= 50 {
        [255, (255 * p / 50) as u8, 0, 255]
    } else {
        [(255 * (100 - p) / 50) as u8, 255, 0, 255]
    };
    proof {
        assert(c@ =~= completion_color(percentage as int));
    }
    c
}

/// How a relation arrow is drawn.
#[derive(Clone, Copy, PartialEq, Eq, Structural, Debug)]
pub enum RelationType {
    Direct,
    Indirect,
}

/// A research field: a named circular region of the diagram.
#[derive(Debug)]
pub struct ResearchField {
    pub id: String,
    pub name: String,
    pub description: String,
    pub position: (i64, i64),
    pub radius: i64,
}

/// Mathematical image of a field.
#[verifier::ext_equal]
pub ghost struct FieldView {
    pub id: Seq<char>,
    pub x: int,
    pub y: int,
    pub radius: int,
}

impl View for ResearchField {
    type V = FieldView;

    open spec fn view(&self) -> FieldView {
        FieldView {
            id: self.id@,
            x: self.position.0 as int,
            y: self.position.1 as int,
            radius: self.radius as int,
        }
    }
}

impl FieldView {
    /// Coordinates and radius within the engine's working range.
    pub open spec fn wf(self) -> bool {
        &&& -(COORD_LIMIT as int) <= self.x <= COORD_LIMIT as int
        &&& -(COORD_LIMIT as int) <= self.y <= COORD_LIMIT as int
        &&& 0 <= self.radius <= RADIUS_LIMIT as int
    }
}

/// A project: a small circle that belongs to zero or more fields.
/// `completion_percentage` is an integer percentage, clamped to 100 where
/// it is interpreted.
#[derive(Debug)]
pub struct Project {
    pub id: String,
    pub name: String,
    pub description: String,
    pub status: ProjectStatus,
    pub field_ids: Vec<String>,
    pub position: (i64, i64),
    pub radius: i64,
    pub completion_percentage: u32,
}

/// Mathematical image of a project.
#[verifier::ext_equal]
pub ghost struct ProjectView {
    pub id: Seq<char>,
    pub status: ProjectStatus,
    pub field_ids: Seq<Seq<char>>,
    pub x: int,
    pub y: int,
    pub radius: int,
    pub completion: int,
}

impl View for Project {
    type V = ProjectView;

    open spec fn view(&self) -> ProjectView {
        ProjectView {
            id: self.id@,
            status: self.status,
            field_ids: self.field_ids.deep_view(),
            x: self.position.0 as int,
            y: self.position.1 as int,
            radius: self.radius as int,
            completion: self.completion_percentage as int,
        }
    }
}

impl ProjectView {
    pub open spec fn wf(self) -> bool {
        &&& -(COORD_LIMIT as int) <= self.x <= COORD_LIMIT as int
        &&& -(COORD_LIMIT as int) <= self.y <= COORD_LIMIT as int
        &&& 0 <= self.radius <= RADIUS_LIMIT as int
    }

    /// The same project somewhere else; everything but the position equal.
    pub open spec fn moved_to(self, x: int, y: int) -> ProjectView {
        ProjectView { x, y, ..self }
    }
}

/// A directed, styled arrow between two projects.  Both ids must resolve
/// for the relation to affect geometry; dangling relations are kept in the
/// data but ignored.  `width` is in thousandths of a unit.
#[derive(Debug)]
pub struct ProjectRelation {
    pub from_id: String,
    pub to_id: String,
    pub relation_type: RelationType,
    pub tags: Vec<String>,
    pub color: [u8; 4],
    pub width: u32,
}

/// Mathematical image of a relation.
#[verifier::ext_equal]
pub ghost struct RelationView {
    pub from_id: Seq<char>,
    pub to_id: Seq<char>,
    pub relation_type: RelationType,
    pub tags: Seq<Seq<char>>,
    pub color: Seq<u8>,
    pub width: int,
}

impl View for ProjectRelation {
    type V = RelationView;

    open spec fn view(&self) -> RelationView {
        RelationView {
            from_id: self.from_id@,
            to_id: self.to_id@,
            relation_type: self.relation_type,
            tags: self.tags.deep_view(),
            color: self.color@,
            width: self.width as int,
        }
    }
}

/// Default arrow colour: opaque black.
pub fn default_relation_color() -> (c: [u8; 4])
    ensures
        c@ == seq![0u8, 0u8, 0u8, 255u8],
{
    let c: [u8; 4] = [0, 0, 0, 255];
    proof {
        assert(c@ =~= seq![0u8, 0u8, 0u8, 255u8]);
    }
    c
}

/// Default arrow width, two units, in thousandths.
pub fn default_relation_width() -> (w: u32)
    ensures
        w == 2000,
{
    2000
}

impl Default for ProjectRelation {
    fn default() -> (r: ProjectRelation)
        ensures
            r@.from_id == Seq::<char>::empty(),
            r@.to_id == Seq::<char>::empty(),
            r@.relation_type == RelationType::Direct,
            r@.tags == Seq::<Seq<char>>::empty(),
            r@.color == seq![0u8, 0u8, 0u8, 255u8],
            r@.width == 2000,
    {
        let r = ProjectRelation {
            from_id: String::new(),
            to_id: String::new(),
            relation_type: RelationType::Direct,
            tags: Vec::new(),
            color: default_relation_color(),
            width: default_relation_width(),
        };
        proof {
            assert(r@.tags =~= Seq::<Seq<char>>::empty());
        }
        r
    }
}

/// A login account; the hash field stores what the surrounding
/// application chooses to store.
#[derive(Debug)]
pub struct User {
    pub username: String,
    pub password_hash: String,
}

/// The on-disk account registry.
#[derive(Debug)]
pub struct UserConfig {
    pub users: Vec<UserConfigEntry>,
}

/// One account of the registry.
#[derive(Debug)]
pub struct UserConfigEntry {
    pub username: String,
    pub password_hash: String,
    pub data_storage_path: Option<String>,
    pub last_edited_file: Option<String>,
}

/// Mathematical image of a registry entry.
#[verifier::ext_equal]
pub ghost struct UserEntryView {
    pub username: Seq<char>,
    pub password_hash: Seq<char>,
    pub data_storage_path: Option<Seq<char>>,
    pub last_edited_file: Option<Seq<char>>,
}

impl View for UserConfigEntry {
    type V = UserEntryView;

    open spec fn view(&self) -> UserEntryView {
        UserEntryView {
            username: self.username@,
            password_hash: self.password_hash@,
            data_storage_path: self.data_storage_path.deep_view(),
            last_edited_file: self.last_edited_file.deep_view(),
        }
    }
}

impl View for UserConfig {
    type V = Seq<UserEntryView>;

    open spec fn view(&self) -> Seq<UserEntryView> {
        self.users@.map_values(|u: UserConfigEntry| u@)
    }
}

/// Application preferences.  `default_zoom`, `field_border_width` and
/// `project_border_width` are in thousandths of a unit.
#[derive(Debug)]
pub struct AppSettings {
    pub auto_save: bool,
    pub auto_save_interval: u64,
    pub default_zoom: u32,
    pub max_history_size: usize,
    pub show_project_numbers: bool,
    pub show_project_names: bool,
    pub field_border_width: u32,
    pub project_border_width: u32,
    pub visualization_bg_color: [u8; 4],
}

pub fn default_auto_save() -> (v: bool)
    ensures
        v == false,
{
    false
}

pub fn default_auto_save_interval() -> (v: u64)
    ensures
        v == 300,
{
    300
}

pub fn default_default_zoom() -> (v: u32)
    ensures
        v == 1000,
{
    1000
}

pub fn default_max_history_size() -> (v: usize)
    ensures
        v == 50,
{
    50
}

pub fn default_show_project_numbers() -> (v: bool)
    ensures
        v == true,
{
    true
}

pub fn default_show_project_names() -> (v: bool)
    ensures
        v == true,
{
    true
}

pub fn default_field_border_width() -> (v: u32)
    ensures
        v == 2000,
{
    2000
}

pub fn default_project_border_width() -> (v: u32)
    ensures
        v == 3000,
{
    3000
}

pub fn default_visualization_bg_color() -> (c: [u8; 4])
    ensures
        c@ == seq![255u8, 255u8, 255u8, 255u8],
{
    let c: [u8; 4] = [255, 255, 255, 255];
    proof {
        assert(c@ =~= seq![255u8, 255u8, 255u8, 255u8]);
    }
    c
}

impl Default for AppSettings {
    fn default() -> (s: AppSettings)
        ensures
            s.auto_save == false,
            s.auto_save_interval == 300,
            s.default_zoom == 1000,
            s.max_history_size == 50,
            s.show_project_numbers == true,
            s.show_project_names == true,
            s.field_border_width == 2000,
            s.project_border_width == 3000,
            s.visualization_bg_color@ == seq![255u8, 255u8, 255u8, 255u8],
    {
        AppSettings {
            auto_save: false,
            auto_save_interval: 300,
            default_zoom: 1000,
            max_history_size: 50,
            show_project_numbers: true,
            show_project_names: true,
            field_border_width: 2000,
            project_border_width: 3000,
            visualization_bg_color: default_visualization_bg_color(),
        }
    }
}

/// The whole document: insertion-ordered fields and projects, the relation
/// list, and the global relation-tag vocabulary.
#[derive(Debug)]
pub struct AppData {
    pub fields: Vec<ResearchField>,
    pub projects: Vec<Project>,
    pub relations: Vec<ProjectRelation>,
    pub relation_tags: Vec<String>,
}

/// Mathematical image of a document.
#[verifier::ext_equal]
pub ghost struct DocView {
    pub fields: Seq<FieldView>,
    pub projects: Seq<ProjectView>,
    pub relations: Seq<RelationView>,
    pub relation_tags: Seq<Seq<char>>,
}

/// Views of a field vector.
pub open spec fn field_views(fields: Seq<ResearchField>) -> Seq<FieldView> {
    fields.map_values(|f: ResearchField| f@)
}

/// Views of a project vector.
pub open spec fn project_views(projects: Seq<Project>) -> Seq<ProjectView> {
    projects.map_values(|p: Project| p@)
}

/// Views of a relation vector.
pub open spec fn relation_views(relations: Seq<ProjectRelation>) -> Seq<RelationView> {
    relations.map_values(|r: ProjectRelation| r@)
}

impl View for AppData {
    type V = DocView;

    open spec fn view(&self) -> DocView {
        DocView {
            fields: field_views(self.fields@),
            projects: project_views(self.projects@),
            relations: relation_views(self.relations@),
            relation_tags: self.relation_tags.deep_view(),
        }
    }
}

/// Every field within the engine's working range.
pub open spec fn all_fields_wf(fields: Seq<FieldView>) -> bool {
    forall|i: int| 0 <= i < fields.len() ==> (#[trigger] fields[i]).wf()
}

/// Field ids pairwise distinct.
pub open spec fn unique_field_ids(fields: Seq<FieldView>) -> bool {
    forall|i: int, j: int|
        0 <= i < j < fields.len() ==> (#[trigger] fields[i]).id != (#[trigger] fields[j]).id
}

/// Every project within the engine's working range.
pub open spec fn all_projects_wf(projects: Seq<ProjectView>) -> bool {
    forall|i: int| 0 <= i < projects.len() ==> (#[trigger] projects[i]).wf()
}

/// Project ids pairwise distinct.
pub open spec fn unique_project_ids(projects: Seq<ProjectView>) -> bool {
    forall|i: int, j: int|
        0 <= i < j < projects.len() ==> (#[trigger] projects[i]).id != (#[trigger] projects[j]).id
}

impl DocView {
    /// Every field and project within range, ids unique per collection.
    pub open spec fn wf(self) -> bool {
        &&& all_fields_wf(self.fields)
        &&& unique_field_ids(self.fields)
        &&& all_projects_wf(self.projects)
        &&& unique_project_ids(self.projects)
    }
}

/// An id occurs in a membership list.
pub open spec fn id_in(ids: Seq<Seq<char>>, id: Seq<char>) -> bool {
    exists|i: int| 0 <= i < ids.len() && ids[i] == id
}

/// Whether the membership list `ids` names `id`.
pub fn contains_id(ids: &Vec<String>, id: &String) -> (b: bool)
    ensures
        b == id_in(ids.deep_view(), id@),
{
    let n = ids.len();
    for j in 0..n
        invariant
            n == ids.len(),
            forall|k: int| 0 <= k < j ==> ids.deep_view()[k] != id@,
    {
        assert(ids.deep_view()[j as int] == ids@[j as int]@);
        if ids[j] == *id {
            return true;
        }
    }
    false
}

/// Index of the field with the given id, if any.
pub fn find_field_index(fields: &Vec<ResearchField>, id: &String) -> (r: Option<usize>)
    ensures
        match r {
            Some(i) => i < fields.len() && fields[i as int]@.id == id@,
            None => forall|k: int| 0 <= k < fields.len() ==> (#[trigger] fields[k]@).id != id@,
        },
{
    let n = fields.len();
    for j in 0..n
        invariant
            n == fields.len(),
            forall|k: int| 0 <= k < j ==> (#[trigger] fields[k]@).id != id@,
    {
        if fields[j].id == *id {
            return Some(j);
        }
    }
    None
}

/// Index of the project with the given id, if any.
pub fn find_project_index(projects: &Vec<Project>, id: &String) -> (r: Option<usize>)
    ensures
        match r {
            Some(i) => i < projects.len() && projects[i as int]@.id == id@,
            None => forall|k: int| 0 <= k < projects.len() ==> (#[trigger] projects[k]@).id != id@,
        },
{
    let n = projects.len();
    for j in 0..n
        invariant
            n == projects.len(),
            forall|k: int| 0 <= k < j ==> (#[trigger] projects[k]@).id != id@,
    {
        if projects[j].id == *id {
            return Some(j);
        }
    }
    None
}

impl Default for AppData {
    /// The starter document: three research fields and two published
    /// projects, one relation between them.
    fn default() -> (d: AppData)
        ensures
            d@.wf(),
            d@.fields.len() == 3,
            d@.fields[0].id == "rna_structure"@ && d@.fields[0].x == 400 && d@.fields[0].y == 200
                && d@.fields[0].radius == 200,
            d@.fields[1].id == "microbial_ecology"@ && d@.fields[1].x == 200 && d@.fields[1].y
                == 500 && d@.fields[1].radius == 200,
            d@.fields[2].id == "bioinfo_tools"@ && d@.fields[2].x == 600 && d@.fields[2].y == 500
                && d@.fields[2].radius == 200,
            d@.projects.len() == 2,
            d@.projects[0].id == "project_1"@ && d@.projects[0].field_ids == seq![
                "bioinfo_tools"@,
            ] && d@.projects[0].x == 550 && d@.projects[0].y == 450 && d@.projects[0].radius == 20
                && d@.projects[0].completion == 100 && d@.projects[0].status
                == ProjectStatus::Published,
            d@.projects[1].id == "project_2"@ && d@.projects[1].field_ids == seq![
                "microbial_ecology"@,
            ] && d@.projects[1].x == 250 && d@.projects[1].y == 450 && d@.projects[1].radius == 20
                && d@.projects[1].completion == 100 && d@.projects[1].status
                == ProjectStatus::Published,
            d@.relations.len() == 1,
            d@.relations[0].from_id == "project_1"@ && d@.relations[0].to_id == "project_2"@
                && d@.relations[0].relation_type == RelationType::Direct,
            d@.relation_tags.len() == 0,
    {
        let mut fields: Vec<ResearchField> = Vec::new();
        fields.push(
            ResearchField {
                id: String::from_str("rna_structure"),
                name: String::from_str("RNA结构"),
                description: String::from_str("RNA结构研究"),
                position: (400, 200),
                radius: 200,
            },
        );
        fields.push(
            ResearchField {
                id: String::from_str("microbial_ecology"),
                name: String::from_str("微生物生态"),
                description: String::from_str("微生物生态研究"),
                position: (200, 500),
                radius: 200,
            },
        );
        fields.push(
            ResearchField {
                id: String::from_str("bioinfo_tools"),
                name: String::from_str("生信工具开发"),
                description: String::from_str("生物信息学工具开发"),
                position: (600, 500),
                radius: 200,
            },
        );
        let mut m1: Vec<String> = Vec::new();
        m1.push(String::from_str("bioinfo_tools"));
        let mut m2: Vec<String> = Vec::new();
        m2.push(String::from_str("microbial_ecology"));
        let mut projects: Vec<Project> = Vec::new();
        projects.push(
            Project {
                id: String::from_str("project_1"),
                name: String::from_str("itol.toolkit"),
                description: String::from_str("iTOL工具包"),
                status: ProjectStatus::Published,
                field_ids: m1,
                position: (550, 450),
                radius: 20,
                completion_percentage: 100,
            },
        );
        projects.push(
            Project {
                id: String::from_str("project_2"),
                name: String::from_str("VnFinder"),
                description: String::from_str("VnFinder工具"),
                status: ProjectStatus::Published,
                field_ids: m2,
                position: (250, 450),
                radius: 20,
                completion_percentage: 100,
            },
        );
        let mut relations: Vec<ProjectRelation> = Vec::new();
        relations.push(
            ProjectRelation {
                from_id: String::from_str("project_1"),
                to_id: String::from_str("project_2"),
                relation_type: RelationType::Direct,
                tags: Vec::new(),
                color: default_relation_color(),
                width: default_relation_width(),
            },
        );
        let d = AppData { fields, projects, relations, relation_tags: Vec::new() };
        proof {
            reveal_strlit("rna_structure");
            reveal_strlit("microbial_ecology");
            reveal_strlit("bioinfo_tools");
            reveal_strlit("project_1");
            reveal_strlit("project_2");
            assert(d@.fields[0].id != d@.fields[1].id) by {
                assert("rna_structure"@.len() == 13 && "microbial_ecology"@.len() == 17);
            }
            assert(d@.fields[0].id != d@.fields[2].id) by {
                assert("rna_structure"@[0] == 'r' && "bioinfo_tools"@[0] == 'b');
            }
            assert(d@.fields[1].id != d@.fields[2].id) by {
                assert("microbial_ecology"@.len() == 17 && "bioinfo_tools"@.len() == 13);
            }
            assert(d@.projects[0].id != d@.projects[1].id) by {
                assert("project_1"@[8] == '1' && "project_2"@[8] == '2');
            }
            assert(d@.projects[0].field_ids =~= seq!["bioinfo_tools"@]);
            assert(d@.projects[1].field_ids =~= seq!["microbial_ecology"@]);
            assert(d@.wf());
        }
        d
    }
}

impl AppData {
    /// A document with no fields, projects, relations or tags.
    pub fn default_empty() -> (d: AppData)
        ensures
            d@.wf(),
            d@.fields.len() == 0,
            d@.projects.len() == 0,
            d@.relations.len() == 0,
            d@.relation_tags.len() == 0,
    {
        AppData {
            fields: Vec::new(),
            projects: Vec::new(),
            relations: Vec::new(),
            relation_tags: Vec::new(),
        }
    }
}

} // verus!
