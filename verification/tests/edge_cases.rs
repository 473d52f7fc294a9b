//! Failure-path and compatibility coverage for the portable API.

use tinyskills::discovery::resolve_collisions;
use tinyskills::document::{assemble_document, load_document, split_frontmatter};
use tinyskills::model::{Skill, SkillFrontmatter, SkillScope};
use tinyskills::resource::resolve_skill;

fn frontmatter(name: &str, description: &str) -> SkillFrontmatter {
    let mut f = SkillFrontmatter::empty();
    f.name = name.to_owned();
    f.description = description.to_owned();
    f
}

fn discovered(root: &str, dir: &str, name: &str, description: &str, scope: SkillScope) -> Skill {
    let location = format!("{root}/{dir}/SKILL.md");
    load_document(
        Some((frontmatter(name, description), "Body\n".to_owned(), Vec::new())),
        &location,
        dir,
        Vec::new(),
        scope,
    )
}

#[test]
fn collision_resolution_handles_lower_and_equal_precedence() {
    let found = resolve_collisions(vec![
        discovered("project", "shared", "shared", "project", SkillScope::Project),
        discovered("user", "shared", "shared", "user", SkillScope::User),
    ]);
    assert_eq!(found[0].description, "project");
    assert!(found[0].warnings.iter().any(|warning| warning.contains("ignored")));

    let equal = resolve_collisions(vec![
        discovered("user", "shared", "shared", "user", SkillScope::User),
        discovered("other", "different", "shared", "equal", SkillScope::User),
    ]);
    assert_eq!(equal.len(), 1);
}

fn skill(name: &str, dir: &str, location: &str) -> Skill {
    let mut s = Skill::default();
    s.name = name.to_owned();
    s.dir_name = dir.to_owned();
    s.location = Some(location.to_owned());
    s
}

#[test]
fn resolve_skill_rejects_missing_and_ambiguous_ids() {
    assert!(resolve_skill(Vec::<Skill>::new(), "missing").is_err());
    assert!(resolve_skill(vec![skill("one", "same", "a"), skill("two", "same", "b")], "same").is_err());
    assert!(resolve_skill(vec![skill("same", "one", "a"), skill("same", "two", "b")], "same").is_err());
    assert!(resolve_skill(vec![skill("other", "id", "a"), skill("id", "two", "b")], "id").is_err());
    assert!(resolve_skill(vec![skill("other", "id", "a"), skill("id", "two", "a")], "id").is_ok());
    let one = skill("same", "same", "a");
    assert_eq!(
        resolve_skill(vec![skill("same", "same", "a")], "same").map(|found| found.location),
        Ok(one.location)
    );
}

#[test]
fn scope_precedence_and_legacy_body_are_stable() {
    assert_eq!(SkillScope::Builtin.precedence(), 0);
    assert_eq!(SkillScope::Legacy.precedence(), 1);
    assert_eq!(SkillScope::User.precedence(), 2);
    assert_eq!(SkillScope::Project.precedence(), 3);
    assert_eq!(SkillScope::Profile.precedence(), 4);
    assert_eq!(SkillScope::Flow.precedence(), 5);
    let mut legacy = Skill::default();
    legacy.legacy = true;
    assert!(legacy.read_body().is_none());
    let mut missing = Skill::default();
    missing.location = Some("missing".to_owned());
    assert!(missing.read_body().is_none());
}

#[test]
fn splitting_handles_plain_unterminated_and_fenced_documents() {
    let (yaml, body) = split_frontmatter("plain body").expect("plain rejected");
    assert!(yaml.is_none());
    assert_eq!(body, "plain body");
    assert!(split_frontmatter("---\nname: demo\n").is_none());
    let (yaml, body) = split_frontmatter("---\nname: [\n---\nbody\n").expect("fenced rejected");
    assert_eq!(yaml.as_deref(), Some("name: [\n"));
    assert_eq!(body, "body\n");
    assert!(split_frontmatter("").is_none());
}

#[test]
fn resolve_skill_error_messages_are_exact() {
    assert_eq!(
        resolve_skill(Vec::<Skill>::new(), "missing").err().as_deref(),
        Some("skill 'missing' not found")
    );
    assert_eq!(
        resolve_skill(vec![skill("one", "same", "a"), skill("two", "same", "b")], "same").err().as_deref(),
        Some("skill id 'same' is ambiguous across multiple directories")
    );
    assert_eq!(
        resolve_skill(vec![skill("same", "one", "a"), skill("same", "two", "b")], "same").err().as_deref(),
        Some("skill name 'same' is ambiguous; use the directory id")
    );
    assert_eq!(
        resolve_skill(vec![skill("other", "id", "a"), skill("id", "two", "b")], "id").err().as_deref(),
        Some("skill id 'id' matches both a directory id and a different skill name")
    );
    let found = resolve_skill(vec![skill("x", "y", "a"), skill("id", "z", "b")], "id").expect("name match");
    assert_eq!(found.dir_name, "z");
}

#[test]
fn assembling_reports_undecodable_yaml() {
    let (f, body, warnings) = assemble_document("text\n".to_owned(), None);
    assert!(f.name.is_empty() && f.metadata.is_empty());
    assert_eq!(body, "text\n");
    assert!(warnings.is_empty());
    let (f, _, warnings) = assemble_document(String::new(), Some(Ok(frontmatter("demo", "d"))));
    assert_eq!(f.name, "demo");
    assert!(warnings.is_empty());
    let (f, _, warnings) =
        assemble_document(String::new(), Some(Err("invalid type: sequence".to_owned())));
    assert!(f.name.is_empty());
    assert_eq!(warnings, ["frontmatter parse error: invalid type: sequence"]);
}

/// Split a document with the library, decode its YAML with `serde_yaml`, and
/// assemble the result with the library, keeping only the `name` key.
fn parse_with_yaml(content: &str) -> Option<(SkillFrontmatter, String, Vec<String>)> {
    let (yaml, body) = split_frontmatter(content)?;
    let decoded = yaml.map(|yaml| {
        serde_yaml::from_str::<serde_yaml::Value>(&yaml)
            .map(|value| {
                let mut f = SkillFrontmatter::empty();
                if let Some(name) = value.get("name").and_then(serde_yaml::Value::as_str) {
                    f.name = name.to_owned();
                }
                f
            })
            .map_err(|error| error.to_string())
    });
    Some(assemble_document(body, decoded))
}

#[test]
fn parsing_handles_plain_unterminated_and_invalid_yaml() {
    let (frontmatter, body, warnings) = parse_with_yaml("plain body").expect("plain rejected");
    assert!(frontmatter.name.is_empty());
    assert_eq!(body, "plain body");
    assert!(warnings.is_empty());
    assert!(parse_with_yaml("---\nname: demo\n").is_none());

    let (frontmatter, _, warnings) =
        parse_with_yaml("---\nname: [\n---\nbody\n").expect("invalid yaml rejected");
    assert!(frontmatter.name.is_empty());
    assert_eq!(warnings.len(), 1);
    assert!(warnings[0].starts_with("frontmatter parse error: "));
    assert!(parse_with_yaml("").is_none());

    let (frontmatter, body, warnings) =
        parse_with_yaml("---\nname: demo\n---\nbody\n").expect("valid yaml rejected");
    assert_eq!(frontmatter.name, "demo");
    assert_eq!(body, "body\n");
    assert!(warnings.is_empty());
}

#[test]
fn locations_are_compared_by_component() {
    let found = resolve_skill(
        vec![skill("other", "id", "a/b/SKILL.md"), skill("id", "two", "a//b/./SKILL.md")],
        "id",
    );
    assert_eq!(found.map(|s| s.name), Ok("other".to_owned()));
    assert!(resolve_skill(
        vec![skill("other", "id", "a/b/SKILL.md"), skill("id", "two", "/a/b/SKILL.md")],
        "id"
    )
    .is_err());
    assert!(resolve_skill(
        vec![skill("other", "id", "./a/SKILL.md"), skill("id", "two", "a/SKILL.md")],
        "id"
    )
    .is_err());
    assert!(resolve_skill(
        vec![skill("other", "id", "a/b/"), skill("id", "two", "a/b")],
        "id"
    )
    .is_ok());
}
