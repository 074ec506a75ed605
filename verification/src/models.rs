//! The data of story structures and of projects built on them.
use vstd::prelude::*;
use crate::text::{strs, owned};

verus! {

/// A link to further reading about a structure.
#[derive(Debug)]
pub struct Reference {
    pub label: String,
    pub url: String,
}

/// One beat of a structure, and of a project once written into.
#[derive(Debug)]
pub struct StructureStep {
    pub id: String,
    pub name: String,
    pub target: String,
    pub prompt: String,
    /// The text written for the beat.
    pub content: String,
    /// `empty`, `draft` or `done`.
    pub status: String,
}

/// A story structure template (three-act, hero's journey, ...).
#[derive(Debug)]
pub struct StoryStructure {
    pub id: String,
    pub name: String,
    pub mediums: Vec<String>,
    pub author: String,
    pub structure_type: String,
    pub complexity: String,
    pub description: String,
    pub best_for: String,
    pub avoid_if: String,
    pub references: Vec<Reference>,
    pub steps: Vec<StructureStep>,
}

/// What the writer says about a project.
#[derive(Debug)]
pub struct ProjectMetadata {
    pub title: String,
    pub genre: String,
    pub logline: String,
    pub estimated_length: String,
    pub notes: String,
}

/// A point in time with the UTC offset that was in force where it was read:
/// whole seconds since the Unix epoch, the nanoseconds past them, and the
/// local offset east of UTC in seconds.
#[derive(Debug, Clone, Copy, PartialEq, Eq)]
pub struct Timestamp {
    pub seconds: i64,
    pub nanos: u32,
    pub utc_offset: i32,
}

/// A writing project: a structure's beats with the text written for them.
#[derive(Debug)]
pub struct Project {
    pub id: String,
    pub app_name: String,
    pub app_version: String,
    pub medium: String,
    pub structure_id: String,
    pub structure_name: String,
    pub metadata: ProjectMetadata,
    pub steps: Vec<StructureStep>,
    pub created_at: Timestamp,
    pub updated_at: Timestamp,
}

pub struct ReferenceView {
    pub label: Seq<char>,
    pub url: Seq<char>,
}

pub struct StepView {
    pub id: Seq<char>,
    pub name: Seq<char>,
    pub target: Seq<char>,
    pub prompt: Seq<char>,
    pub content: Seq<char>,
    pub status: Seq<char>,
}

pub struct StructureView {
    pub id: Seq<char>,
    pub name: Seq<char>,
    pub mediums: Seq<Seq<char>>,
    pub author: Seq<char>,
    pub structure_type: Seq<char>,
    pub complexity: Seq<char>,
    pub description: Seq<char>,
    pub best_for: Seq<char>,
    pub avoid_if: Seq<char>,
    pub references: Seq<ReferenceView>,
    pub steps: Seq<StepView>,
}

pub struct MetadataView {
    pub title: Seq<char>,
    pub genre: Seq<char>,
    pub logline: Seq<char>,
    pub estimated_length: Seq<char>,
    pub notes: Seq<char>,
}

pub struct ProjectView {
    pub id: Seq<char>,
    pub app_name: Seq<char>,
    pub app_version: Seq<char>,
    pub medium: Seq<char>,
    pub structure_id: Seq<char>,
    pub structure_name: Seq<char>,
    pub metadata: MetadataView,
    pub steps: Seq<StepView>,
    pub created_at: Timestamp,
    pub updated_at: Timestamp,
}

impl View for Reference {
    type V = ReferenceView;

    open spec fn view(&self) -> ReferenceView {
        ReferenceView { label: self.label@, url: self.url@ }
    }
}

impl View for StructureStep {
    type V = StepView;

    open spec fn view(&self) -> StepView {
        StepView {
            id: self.id@,
            name: self.name@,
            target: self.target@,
            prompt: self.prompt@,
            content: self.content@,
            status: self.status@,
        }
    }
}

/// The views of a sequence of references.
pub open spec fn reference_views(v: Seq<Reference>) -> Seq<ReferenceView> {
    v.map_values(|r: Reference| r@)
}

/// The views of a sequence of steps.
pub open spec fn step_views(v: Seq<StructureStep>) -> Seq<StepView> {
    v.map_values(|s: StructureStep| s@)
}

/// The views of a sequence of structures.
pub open spec fn structure_views(v: Seq<StoryStructure>) -> Seq<StructureView> {
    v.map_values(|s: StoryStructure| s@)
}

impl View for StoryStructure {
    type V = StructureView;

    open spec fn view(&self) -> StructureView {
        StructureView {
            id: self.id@,
            name: self.name@,
            mediums: strs(self.mediums@),
            author: self.author@,
            structure_type: self.structure_type@,
            complexity: self.complexity@,
            description: self.description@,
            best_for: self.best_for@,
            avoid_if: self.avoid_if@,
            references: reference_views(self.references@),
            steps: step_views(self.steps@),
        }
    }
}

impl View for ProjectMetadata {
    type V = MetadataView;

    open spec fn view(&self) -> MetadataView {
        MetadataView {
            title: self.title@,
            genre: self.genre@,
            logline: self.logline@,
            estimated_length: self.estimated_length@,
            notes: self.notes@,
        }
    }
}

impl View for Project {
    type V = ProjectView;

    open spec fn view(&self) -> ProjectView {
        ProjectView {
            id: self.id@,
            app_name: self.app_name@,
            app_version: self.app_version@,
            medium: self.medium@,
            structure_id: self.structure_id@,
            structure_name: self.structure_name@,
            metadata: self.metadata@,
            steps: step_views(self.steps@),
            created_at: self.created_at,
            updated_at: self.updated_at,
        }
    }
}

/// The status a step has when none is given: `empty`.
pub fn default_status() -> (s: String)
    ensures
        s@ == "empty"@,
{
    owned("empty")
}

/// A copy of each string of `v`.
pub fn clone_strings(v: &Vec<String>) -> (r: Vec<String>)
    ensures
        strs(r@) == strs(v@),
{
    let mut r: Vec<String> = Vec::new();
    let mut i: usize = 0;
    while i < v.len()
        invariant
            i <= v.len(),
            strs(r@) =~= strs(v@).take(i as int),
        decreases v.len() - i,
    {
        let x = v[i].clone();
        proof {
            assert(strs(r@.push(x)) =~= strs(r@).push(x@));
            assert(strs(v@).take(i + 1) =~= strs(v@).take(i as int).push(v@[i as int]@));
        }
        r.push(x);
        i = i + 1;
    }
    r
}

/// A copy of each reference of `v`.
pub fn clone_references(v: &Vec<Reference>) -> (r: Vec<Reference>)
    ensures
        reference_views(r@) == reference_views(v@),
{
    let mut r: Vec<Reference> = Vec::new();
    let mut i: usize = 0;
    while i < v.len()
        invariant
            i <= v.len(),
            reference_views(r@) =~= reference_views(v@).take(i as int),
        decreases v.len() - i,
    {
        let x = v[i].clone();
        proof {
            assert(reference_views(r@.push(x)) =~= reference_views(r@).push(x@));
            assert(reference_views(v@).take(i + 1) =~= reference_views(v@).take(i as int).push(v@[i as int]@));
        }
        r.push(x);
        i = i + 1;
    }
    r
}

/// A copy of each step of `v`.
pub fn clone_steps(v: &Vec<StructureStep>) -> (r: Vec<StructureStep>)
    ensures
        step_views(r@) == step_views(v@),
{
    let mut r: Vec<StructureStep> = Vec::new();
    let mut i: usize = 0;
    while i < v.len()
        invariant
            i <= v.len(),
            step_views(r@) =~= step_views(v@).take(i as int),
        decreases v.len() - i,
    {
        let x = v[i].clone();
        proof {
            assert(step_views(r@.push(x)) =~= step_views(r@).push(x@));
            assert(step_views(v@).take(i + 1) =~= step_views(v@).take(i as int).push(v@[i as int]@));
        }
        r.push(x);
        i = i + 1;
    }
    r
}

impl Clone for Reference {
    fn clone(&self) -> (r: Self)
        ensures
            r@ == self@,
    {
        Reference { label: self.label.clone(), url: self.url.clone() }
    }
}

impl Clone for StructureStep {
    fn clone(&self) -> (r: Self)
        ensures
            r@ == self@,
    {
        StructureStep {
            id: self.id.clone(),
            name: self.name.clone(),
            target: self.target.clone(),
            prompt: self.prompt.clone(),
            content: self.content.clone(),
            status: self.status.clone(),
        }
    }
}

impl Clone for StoryStructure {
    fn clone(&self) -> (r: Self)
        ensures
            r@ == self@,
    {
        StoryStructure {
            id: self.id.clone(),
            name: self.name.clone(),
            mediums: clone_strings(&self.mediums),
            author: self.author.clone(),
            structure_type: self.structure_type.clone(),
            complexity: self.complexity.clone(),
            description: self.description.clone(),
            best_for: self.best_for.clone(),
            avoid_if: self.avoid_if.clone(),
            references: clone_references(&self.references),
            steps: clone_steps(&self.steps),
        }
    }
}

impl Clone for ProjectMetadata {
    fn clone(&self) -> (r: Self)
        ensures
            r@ == self@,
    {
        ProjectMetadata {
            title: self.title.clone(),
            genre: self.genre.clone(),
            logline: self.logline.clone(),
            estimated_length: self.estimated_length.clone(),
            notes: self.notes.clone(),
        }
    }
}

impl Clone for Project {
    fn clone(&self) -> (r: Self)
        ensures
            r@ == self@,
    {
        Project {
            id: self.id.clone(),
            app_name: self.app_name.clone(),
            app_version: self.app_version.clone(),
            medium: self.medium.clone(),
            structure_id: self.structure_id.clone(),
            structure_name: self.structure_name.clone(),
            metadata: self.metadata.clone(),
            steps: clone_steps(&self.steps),
            created_at: self.created_at,
            updated_at: self.updated_at,
        }
    }
}

} // verus!
