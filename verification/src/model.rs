//! Skill metadata and shared format constants.

use vstd::prelude::*;

verus! {

/// Origin of a discovered skill, ordered from lowest to highest precedence.
#[derive(Debug, Clone, Copy, PartialEq, Eq, Structural)]
pub enum SkillScope {
    /// A host-provided, compiled-in bundle.
    Builtin,
    /// A legacy workspace bundle.
    Legacy,
    /// A user-scoped bundle.
    User,
    /// A project-scoped bundle.
    Project,
    /// A bundle private to an active profile.
    Profile,
    /// A host-provided automation represented outside the filesystem.
    Flow,
}

/// The collision rank of a scope: builtin < legacy < user < project < profile < flow.
pub open spec fn scope_rank(scope: SkillScope) -> nat {
    match scope {
        SkillScope::Builtin => 0,
        SkillScope::Legacy => 1,
        SkillScope::User => 2,
        SkillScope::Project => 3,
        SkillScope::Profile => 4,
        SkillScope::Flow => 5,
    }
}

impl SkillScope {
    /// Return the collision precedence for this scope.
    pub fn precedence(self) -> (rank: u8)
        ensures
            rank as nat == scope_rank(self),
    {
        match self {
            SkillScope::Builtin => 0,
            SkillScope::Legacy => 1,
            SkillScope::User => 2,
            SkillScope::Project => 3,
            SkillScope::Profile => 4,
            SkillScope::Flow => 5,
        }
    }
}

impl Default for SkillScope {
    fn default() -> (scope: SkillScope)
        ensures
            scope == SkillScope::User,
    {
        SkillScope::User
    }
}


/// Current workflow document filename.
pub const WORKFLOW_MD: &'static str = "WORKFLOW.md";
/// Standard agentskills.io document filename.
pub const SKILL_MD: &'static str = "SKILL.md";
/// Legacy JSON manifest filename.
pub const SKILL_JSON: &'static str = "skill.json";
/// Recommended upper bound for a skill name, in bytes.
pub const MAX_NAME_LEN: usize = 64;
/// Recommended upper bound for a skill description, in bytes.
pub const MAX_DESCRIPTION_LEN: usize = 1024;
/// Maximum text resource size accepted by a resource read.
pub const MAX_RESOURCE_BYTES: u64 = 131072;
/// Maximum Markdown document size accepted by the parser.
pub const MAX_DOCUMENT_BYTES: u64 = 1048576;
/// Maximum legacy JSON manifest size accepted by the parser.
pub const MAX_LEGACY_MANIFEST_BYTES: u64 = 262144;

/// Deepest folder nesting that a resource inventory descends into.
pub const MAX_RESOURCE_DEPTH: usize = 64;

/// The conventional resource folders of a bundle.
pub open spec fn resource_dirs() -> Seq<Seq<char>> {
    seq!["scripts"@, "references"@, "assets"@, "templates"@, "examples"@, "prompts"@]
}

/// The conventional resource folders of a bundle, whose files a resource
/// inventory lists.
pub fn resource_dir_names() -> (r: [&'static str; 6])
    ensures
        r@.map_values(|d: &str| d@) == resource_dirs(),
{
    let r: [&'static str; 6] = ["scripts", "references", "assets", "templates", "examples", "prompts"];
    assert(r@.map_values(|d: &str| d@) =~= resource_dirs());
    r
}

/// What a resource inventory does with one directory entry.
#[derive(Debug, Clone, Copy, PartialEq, Eq, Structural)]
pub enum WalkStep {
    /// Leave it out: a symlink, or neither a directory nor a regular file.
    Skip,
    /// Walk into it, one level deeper.
    Descend,
    /// List it as a resource.
    Record,
}

/// What a resource inventory at `depth` does with an entry: symlinks are
/// never followed, directories are walked while `depth` is below the limit,
/// and regular files are listed.
pub fn walk_step(depth: usize, is_symlink: bool, is_dir: bool, is_file: bool) -> (r: WalkStep)
    ensures
        r == (if is_symlink {
            WalkStep::Skip
        } else if is_dir {
            if depth < MAX_RESOURCE_DEPTH {
                WalkStep::Descend
            } else {
                WalkStep::Skip
            }
        } else if is_file {
            WalkStep::Record
        } else {
            WalkStep::Skip
        }),
{
    if is_symlink {
        WalkStep::Skip
    } else if is_dir {
        if depth < MAX_RESOURCE_DEPTH {
            WalkStep::Descend
        } else {
            WalkStep::Skip
        }
    } else if is_file {
        WalkStep::Record
    } else {
        WalkStep::Skip
    }
}

/// A metadata value from YAML frontmatter, holding what the normalizer reads.
///
/// Tags are removed before conversion. Scalars other than strings (numbers,
/// booleans, null) are `Other`; mapping entries whose key is not a string are
/// not kept, since a lookup by a string key never reaches them.
#[derive(Debug)]
pub enum MetaValue {
    /// A string scalar.
    Text(String),
    /// A sequence of values.
    Sequence(Vec<MetaValue>),
    /// A mapping from string keys to values.
    Mapping(Vec<(String, MetaValue)>),
    /// Any other scalar.
    Other,
}

/// Parsed YAML frontmatter for a skill document.
#[derive(Debug)]
pub struct SkillFrontmatter {
    /// Stable or display name.
    pub name: String,
    /// Short explanation of when and why to use the skill.
    pub description: String,
    /// Optional SPDX license expression.
    pub license: Option<String>,
    /// Optional compatibility note.
    pub compatibility: Option<String>,
    /// Platform compatibility hints.
    pub platforms: Vec<String>,
    /// Extension metadata, including version, author, and tags (one entry per key).
    pub metadata: Vec<(String, MetaValue)>,
    /// Non-binding tool requirements declared by the author.
    pub allowed_tools: Vec<String>,
    /// Host event patterns that may activate the skill.
    pub triggers: Vec<String>,
    /// Forward-compatible top-level values (one entry per key).
    pub extra: Vec<(String, MetaValue)>,
}

/// Whether a frontmatter value is the empty default.
pub open spec fn is_empty_frontmatter(f: SkillFrontmatter) -> bool {
    &&& f.name@.len() == 0
    &&& f.description@.len() == 0
    &&& f.license is None
    &&& f.compatibility is None
    &&& f.platforms@.len() == 0
    &&& f.metadata@.len() == 0
    &&& f.allowed_tools@.len() == 0
    &&& f.triggers@.len() == 0
    &&& f.extra@.len() == 0
}

impl SkillFrontmatter {
    /// Frontmatter with every field empty.
    pub fn empty() -> (f: SkillFrontmatter)
        ensures
            is_empty_frontmatter(f),
    {
        SkillFrontmatter {
            name: String::new(),
            description: String::new(),
            license: None,
            compatibility: None,
            platforms: Vec::new(),
            metadata: Vec::new(),
            allowed_tools: Vec::new(),
            triggers: Vec::new(),
            extra: Vec::new(),
        }
    }
}

impl Default for SkillFrontmatter {
    fn default() -> (f: SkillFrontmatter)
        ensures
            is_empty_frontmatter(f),
    {
        SkillFrontmatter::empty()
    }
}

/// A discovered skill bundle.
#[derive(Debug)]
pub struct Skill {
    /// Display name from frontmatter, falling back to the directory name.
    pub name: String,
    /// On-disk directory identifier.
    pub dir_name: String,
    /// Short catalog description.
    pub description: String,
    /// Declared version, if any.
    pub version: String,
    /// Declared author, if any.
    pub author: Option<String>,
    /// Search tags.
    pub tags: Vec<String>,
    /// Compatible platform hints.
    pub platforms: Vec<String>,
    /// Related skill names.
    pub related_skills: Vec<String>,
    /// Source ecosystem hint such as `agentskills`, `hermes`, or `legacy`.
    pub source_format: String,
    /// Declared tool hints.
    pub tools: Vec<String>,
    /// Prompt paths from a legacy JSON manifest.
    pub prompts: Vec<String>,
    /// Path to the document or legacy manifest.
    pub location: Option<String>,
    /// Parsed document frontmatter.
    pub frontmatter: SkillFrontmatter,
    /// Resource paths relative to the bundle root.
    pub resources: Vec<String>,
    /// Discovery scope.
    pub scope: SkillScope,
    /// Whether this came from a legacy JSON manifest or root.
    pub legacy: bool,
    /// Non-fatal diagnostics produced while loading.
    pub warnings: Vec<String>,
    /// Cached body populated only for documents loaded by discovery.
    pub body: Option<String>,
}

/// Whether a skill value is the default one: empty texts and lists, no
/// location, author or body, user scope, not legacy.
pub open spec fn is_default_skill(s: Skill) -> bool {
    &&& s.name@.len() == 0
    &&& s.dir_name@.len() == 0
    &&& s.description@.len() == 0
    &&& s.version@.len() == 0
    &&& s.author is None
    &&& s.tags@.len() == 0
    &&& s.platforms@.len() == 0
    &&& s.related_skills@.len() == 0
    &&& s.source_format@.len() == 0
    &&& s.tools@.len() == 0
    &&& s.prompts@.len() == 0
    &&& s.location is None
    &&& is_empty_frontmatter(s.frontmatter)
    &&& s.resources@.len() == 0
    &&& s.scope == SkillScope::User
    &&& !s.legacy
    &&& s.warnings@.len() == 0
    &&& s.body is None
}

impl Default for Skill {
    fn default() -> (s: Skill)
        ensures
            is_default_skill(s),
    {
        Skill {
            name: String::new(),
            dir_name: String::new(),
            description: String::new(),
            version: String::new(),
            author: None,
            tags: Vec::new(),
            platforms: Vec::new(),
            related_skills: Vec::new(),
            source_format: String::new(),
            tools: Vec::new(),
            prompts: Vec::new(),
            location: None,
            frontmatter: SkillFrontmatter::empty(),
            resources: Vec::new(),
            scope: SkillScope::User,
            legacy: false,
            warnings: Vec::new(),
            body: None,
        }
    }
}

impl Skill {
    /// The Markdown body kept by discovery; legacy manifests have none.
    pub fn read_body(&self) -> (r: Option<String>)
        ensures
            self.legacy ==> r is None,
            !self.legacy ==> (r is Some <==> self.body is Some),
            !self.legacy && self.body is Some ==> r->0@ == self.body->0@,
    {
        if self.legacy {
            return None;
        }
        match &self.body {
            Some(body) => Some(crate::text::copy_string(body)),
            None => None,
        }
    }
}

/// A legacy `skill.json` manifest.
#[derive(Debug)]
pub struct LegacyManifest {
    /// Declared name.
    pub name: String,
    /// Declared description.
    pub description: String,
    /// Declared version.
    pub version: String,
    /// Declared author.
    pub author: Option<String>,
    /// Search tags.
    pub tags: Vec<String>,
    /// Tool hints.
    pub tools: Vec<String>,
    /// Prompt paths.
    pub prompts: Vec<String>,
}

} // verus!
