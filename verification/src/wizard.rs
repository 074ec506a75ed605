//! Starting a project: the menu entries for structures, finding the one
//! chosen, and the project that a structure starts.
use vstd::prelude::*;
use crate::models::{
    Project, ProjectMetadata, ProjectView, StepView, StoryStructure, StructureStep, StructureView,
    Timestamp, step_views,
};
use crate::text::{decimal, lowercase, owned, push_decimal, to_lower};

verus! {

/// How a structure is named in a menu.
#[derive(Debug, Clone, Copy, PartialEq, Eq)]
pub enum LabelStyle {
    /// `name (n steps)`, when a structure is picked for a new project.
    StepCount,
    /// `name (first medium)`, when structures are browsed.
    FirstMedium,
}

/// The menu entry of `s` in `style`.
pub open spec fn label(s: StructureView, style: LabelStyle) -> Seq<char> {
    match style {
        LabelStyle::StepCount => s.name + " ("@ + decimal(s.steps.len()) + " steps)"@,
        LabelStyle::FirstMedium => s.name + " ("@ + s.mediums[0] + ")"@,
    }
}

/// `style` can name `s` (browsing needs a first medium).
pub open spec fn labelable(s: StructureView, style: LabelStyle) -> bool {
    style == LabelStyle::FirstMedium ==> s.mediums.len() > 0
}

/// The medium that an entry of the medium menu picks; `None` for `Back`.
pub open spec fn medium_of_choice(choice: Seq<char>) -> Option<Seq<char>> {
    if choice == "Back"@ {
        None
    } else {
        Some(lowercase(choice))
    }
}

/// A beat as a new project starts it: no text yet, status `empty`.
pub open spec fn fresh_step(s: StepView) -> StepView {
    StepView { content: seq![], status: "empty"@, ..s }
}

/// The project that `s` starts.
pub open spec fn started_project(
    s: StructureView,
    medium: Seq<char>,
    metadata: crate::models::MetadataView,
    id: Seq<char>,
    created_at: Timestamp,
    updated_at: Timestamp,
) -> ProjectView {
    ProjectView {
        id,
        app_name: "Structure Your Story"@,
        app_version: "0.1.0"@,
        medium,
        structure_id: s.id,
        structure_name: s.name,
        metadata,
        steps: s.steps.map_values(|st: StepView| fresh_step(st)),
        created_at,
        updated_at,
    }
}

/// `c` is a hexadecimal digit written in lower case.
pub open spec fn is_lower_hex(c: char) -> bool {
    ('0' <= c <= '9') || ('a' <= c <= 'f')
}

/// `s` has the form of a random project id: a version-4 UUID written as 32
/// lower-case hexadecimal digits, version digit `4` at index 12, variant
/// digit `8`, `9`, `a` or `b` at index 16.
pub open spec fn is_random_id(s: Seq<char>) -> bool {
    &&& s.len() == 32
    &&& forall|i: int| 0 <= i < 32 ==> is_lower_hex(#[trigger] s[i])
    &&& s[12] == '4'
    &&& (s[16] == '8' || s[16] == '9' || s[16] == 'a' || s[16] == 'b')
}

/// `t` can be a reading of the clock: the nanoseconds past the second stay
/// below two seconds (a leap second goes past one), and the offset from UTC
/// is less than a day either way.
pub open spec fn is_clock_reading(t: Timestamp) -> bool {
    &&& t.nanos < 2_000_000_000
    &&& -86_400 < t.utc_offset < 86_400
}

/// Calls uuid's `Uuid::new_v4` and writes the id with `simple()`: the digits
/// are random but for the version and the variant, and `simple()` writes
/// them in lower case without hyphens.
#[verifier::external_body]
fn random_project_id() -> (r: String)
    ensures
        is_random_id(r@),
{
    uuid::Uuid::new_v4().simple().to_string()
}

/// Calls chrono's `Local::now` and reads the seconds, the nanoseconds and the
/// UTC offset of the result; what time it is, nothing here says.
#[verifier::external_body]
fn clock_now() -> (t: Timestamp)
    ensures
        is_clock_reading(t),
{
    let now = chrono::Local::now();
    Timestamp {
        seconds: now.timestamp(),
        nanos: now.timestamp_subsec_nanos(),
        utc_offset: now.offset().local_minus_utc(),
    }
}

/// The menu entry of `s` in `style`.
pub fn structure_label(s: &StoryStructure, style: LabelStyle) -> (r: String)
    requires
        labelable(s@, style),
    ensures
        r@ == label(s@, style),
{
    let mut r = s.name.clone();
    r.append(" (");
    match style {
        LabelStyle::StepCount => {
            push_decimal(&mut r, s.steps.len());
            r.append(" steps)");
            assert(step_views(s.steps@).len() == s.steps@.len());
        },
        LabelStyle::FirstMedium => {
            r.append(s.mediums[0].as_str());
            r.append(")");
        },
    }
    r
}

/// The position of the first structure whose menu entry is `answer`.
pub fn find_by_label(structures: &Vec<StoryStructure>, style: LabelStyle, answer: &str) -> (r: Option<usize>)
    requires
        forall|i: int| 0 <= i < structures@.len() ==> labelable(#[trigger] structures@[i]@, style),
    ensures
        r matches Some(i) ==> i < structures@.len() && label(structures@[i as int]@, style) == answer@,
        r matches Some(i) ==> forall|k: int| 0 <= k < i ==> label(#[trigger] structures@[k]@, style) != answer@,
        r is None ==> forall|k: int| 0 <= k < structures@.len() ==> label(#[trigger] structures@[k]@, style) != answer@,
{
    let a = owned(answer);
    let mut i: usize = 0;
    while i < structures.len()
        invariant
            a@ == answer@,
            i <= structures@.len(),
            forall|k: int| 0 <= k < structures@.len() ==> labelable(#[trigger] structures@[k]@, style),
            forall|k: int| 0 <= k < i ==> label(#[trigger] structures@[k]@, style) != answer@,
        decreases structures.len() - i,
    {
        if structure_label(&structures[i], style) == a {
            return Some(i);
        }
        i = i + 1;
    }
    None
}

/// The medium that an entry of the medium menu picks, lower-cased; `None`
/// for `Back`.
pub fn medium_from_choice(choice: &str) -> (r: Option<String>)
    ensures
        r matches Some(m) ==> medium_of_choice(choice@) == Some(m@),
        r is None ==> medium_of_choice(choice@) is None,
{
    if owned(choice) == owned("Back") {
        None
    } else {
        Some(to_lower(choice))
    }
}

/// The project that `structure` starts for `medium`: its beats, emptied,
/// under the given id, metadata and times.
pub fn start_project(
    structure: &StoryStructure,
    medium: String,
    metadata: ProjectMetadata,
    id: String,
    created_at: Timestamp,
    updated_at: Timestamp,
) -> (r: Project)
    ensures
        r@ == started_project(structure@, medium@, metadata@, id@, created_at, updated_at),
{
    let mut steps: Vec<StructureStep> = Vec::new();
    let ghost src = step_views(structure.steps@);
    let mut i: usize = 0;
    while i < structure.steps.len()
        invariant
            src == step_views(structure.steps@),
            i <= structure.steps@.len(),
            step_views(steps@) =~= src.take(i as int).map_values(|st: StepView| fresh_step(st)),
        decreases structure.steps.len() - i,
    {
        let mut step = structure.steps[i].clone();
        step.status = owned("empty");
        step.content = String::new();
        let ghost before = step_views(steps@);
        steps.push(step);
        proof {
            assert(step_views(steps@) =~= before.push(fresh_step(src[i as int])));
            assert(src.take(i + 1).map_values(|st: StepView| fresh_step(st)) =~= src.take(i as int).map_values(
                |st: StepView| fresh_step(st),
            ).push(fresh_step(src[i as int])));
        }
        i = i + 1;
    }
    assert(src.take(structure.steps@.len() as int) =~= src);
    Project {
        id,
        app_name: owned("Structure Your Story"),
        app_version: owned("0.1.0"),
        medium,
        structure_id: structure.id.clone(),
        structure_name: structure.name.clone(),
        metadata,
        steps,
        created_at,
        updated_at,
    }
}

/// A new project that `structure` starts for `medium`, under a fresh
/// random id, created and updated now.
pub fn create_project(structure: &StoryStructure, medium: String, metadata: ProjectMetadata) -> (r: Project)
    ensures
        r@ == started_project(structure@, medium@, metadata@, r.id@, r.created_at, r.updated_at),
        is_random_id(r.id@),
        is_clock_reading(r.created_at),
        is_clock_reading(r.updated_at),
{
    let id = random_project_id();
    let created_at = clock_now();
    let updated_at = clock_now();
    start_project(structure, medium, metadata, id, created_at, updated_at)
}

/// A copy of `project` marked as updated now, as it is saved.
pub fn touched(project: &Project) -> (r: Project)
    ensures
        r@ == (ProjectView { updated_at: r.updated_at, ..project@ }),
        is_clock_reading(r.updated_at),
{
    let mut r = project.clone();
    r.updated_at = clock_now();
    r
}

/// Looking up a structure's own menu entry finds it, or an earlier
/// structure with the same entry.
pub proof fn lemma_find_by_own_label(structures: Seq<StructureView>, style: LabelStyle, i: int, found: Option<usize>)
    requires
        0 <= i < structures.len(),
        found matches Some(j) ==> j < structures.len() && label(structures[j as int], style) == label(structures[i], style),
        found matches Some(j) ==> forall|k: int| 0 <= k < j ==> label(#[trigger] structures[k], style) != label(structures[i], style),
        found is None ==> forall|k: int| 0 <= k < structures.len() ==> label(#[trigger] structures[k], style) != label(structures[i], style),
    ensures
        found matches Some(j) && j <= i && label(structures[j as int], style) == label(structures[i], style),
{
    let own = label(structures[i], style);
    match found {
        Some(j) => {
            if j > i {
                assert(label(structures[i], style) != own);
            }
        },
        None => {
            assert(label(structures[i], style) != own);
        },
    }
}

/// Every beat of a new project is empty and has status `empty`, and there
/// is one for each beat of the structure, in the same order.
pub proof fn lemma_started_project_is_blank(
    s: StructureView,
    medium: Seq<char>,
    metadata: crate::models::MetadataView,
    id: Seq<char>,
    created_at: Timestamp,
    updated_at: Timestamp,
)
    ensures
        ({
            let p = started_project(s, medium, metadata, id, created_at, updated_at);
            &&& p.steps.len() == s.steps.len()
            &&& forall|k: int| 0 <= k < p.steps.len() ==> {
                &&& (#[trigger] p.steps[k]).content.len() == 0
                &&& p.steps[k].status == "empty"@
                &&& p.steps[k].name == s.steps[k].name
                &&& p.steps[k].prompt == s.steps[k].prompt
                &&& p.steps[k].target == s.steps[k].target
            }
        }),
{
}


/// A started project keeps what it is given: the writer's metadata field by
/// field, the medium, the id, the two times, and the structure's id and name;
/// its app name and version are those of this application; and each beat
/// keeps the id of the structure's beat at its place.
pub proof fn lemma_started_project_keeps_its_inputs(
    s: StructureView,
    medium: Seq<char>,
    metadata: crate::models::MetadataView,
    id: Seq<char>,
    created_at: Timestamp,
    updated_at: Timestamp,
)
    ensures
        ({
            let p = started_project(s, medium, metadata, id, created_at, updated_at);
            &&& p.metadata.title == metadata.title
            &&& p.metadata.genre == metadata.genre
            &&& p.metadata.logline == metadata.logline
            &&& p.metadata.estimated_length == metadata.estimated_length
            &&& p.metadata.notes == metadata.notes
            &&& p.medium == medium
            &&& p.id == id
            &&& p.created_at == created_at
            &&& p.updated_at == updated_at
            &&& p.structure_id == s.id
            &&& p.structure_name == s.name
            &&& p.app_name == "Structure Your Story"@
            &&& p.app_version == "0.1.0"@
            &&& p.steps.len() == s.steps.len()
            &&& forall|k: int| 0 <= k < p.steps.len() ==> (#[trigger] p.steps[k]).id == s.steps[k].id
        }),
{
}

} // verus!
