//! Public behavior checks for portable skill operations.

use tinyskills::bundle::{
    backup_name, digest_bytes, digest_matches, install, materialization_matches, staging_name,
    to_hex, validate_relative_path, BundledFile, BundledSkill, EntryKind, TreeEntry,
};
use tinyskills::discovery::{
    choose_manifest, is_scannable_dir_name, order_by_precedence, resolve_collisions, scans_entry,
    sort_by_dir_name, DiscoveryRoot,
    ManifestKind,
};
use tinyskills::document::{first_body_line, load_document, load_legacy, split_frontmatter};
use tinyskills::model::{
    resource_dir_names, walk_step, LegacyManifest, MetaValue, Skill, SkillFrontmatter, SkillScope,
    WalkStep, MAX_RESOURCE_DEPTH,
};
use tinyskills::resource::{
    check_resource_metadata, check_resource_path, decode_resource, decode_text,
    is_bounded_regular_file, path_within,
};

fn text(s: &str) -> MetaValue {
    MetaValue::Text(s.to_owned())
}

fn list(items: &[&str]) -> MetaValue {
    MetaValue::Sequence(items.iter().map(|s| text(s)).collect())
}

fn frontmatter(name: &str, description: &str) -> SkillFrontmatter {
    let mut f = SkillFrontmatter::empty();
    f.name = name.to_owned();
    f.description = description.to_owned();
    f
}

fn document(root: &str, dir: &str, name: &str, description: &str, scope: SkillScope) -> Skill {
    load_document(
        Some((frontmatter(name, description), "Body\n".to_owned(), Vec::new())),
        &format!("{root}/{dir}/SKILL.md"),
        dir,
        Vec::new(),
        scope,
    )
}

#[test]
fn parses_scalar_tool_lists_and_preserves_body() {
    let source = "---\nname: demo\ndescription: useful\nallowed-tools: Bash, Read\n---\nDo it.\n";
    let (yaml, body) = split_frontmatter(source).expect("invalid document");
    assert_eq!(yaml.as_deref(), Some("name: demo\ndescription: useful\nallowed-tools: Bash, Read\n"));
    assert_eq!(body, "Do it.\n");
    assert_eq!(tinyskills::document::split_tool_list("Bash, Read"), ["Bash", "Read"]);
}

#[test]
fn higher_scope_wins_whatever_the_root_order() {
    for order in [false, true] {
        let user = document("user", "demo", "demo", "user copy", SkillScope::User);
        let project = document("project/nested", "demo", "demo", "project copy", SkillScope::Project);
        let found = resolve_collisions(if order { vec![user, project] } else { vec![project, user] });
        assert_eq!(found.len(), 1);
        assert_eq!(found[0].description, "project copy");
        assert_eq!(found[0].scope, SkillScope::Project);
        let expected = if order { "shadowed" } else { "ignored" };
        assert!(found[0].warnings.iter().any(|warning| warning.contains(expected)));
    }
    let user = document("user", "demo", "demo", "user copy", SkillScope::User);
    let project = document("project/nested", "demo", "demo", "project copy", SkillScope::Project);
    let found = resolve_collisions(vec![user, project]);
    assert_eq!(
        found[0].warnings,
        ["shadowed User-scope skill 'demo' (skill id 'demo') at user/demo/SKILL.md"]
    );
    let user = document("user", "demo", "demo", "user copy", SkillScope::User);
    let project = document("project/nested", "demo", "demo", "project copy", SkillScope::Project);
    let found = resolve_collisions(vec![project, user]);
    assert_eq!(
        found[0].warnings,
        ["skill id 'demo' or name 'demo' also declared in User scope at user/demo/SKILL.md (ignored)"]
    );
}

#[test]
fn discovery_is_recursive_and_higher_scope_wins() {
    let found = resolve_collisions(vec![
        document("user", "demo", "demo", "user copy", SkillScope::User),
        document("project/nested", "demo", "demo", "project copy", SkillScope::Project),
    ]);
    assert_eq!(found.len(), 1);
    assert_eq!(found[0].description, "project copy");
    assert_eq!(found[0].scope, SkillScope::Project);
    assert!(found[0].warnings.iter().any(|warning| warning.contains("shadowed")));
}

#[test]
fn chained_collisions_do_not_depend_on_root_order() {
    let make = || {
        (
            document("a", "x", "a", "profile", SkillScope::Profile),
            document("b", "x", "b", "project", SkillScope::Project),
            document("c", "z", "b", "user", SkillScope::User),
        )
    };
    let (a, b, c) = make();
    let forward = resolve_collisions(vec![a, b, c]);
    let (a, b, c) = make();
    let backward = resolve_collisions(vec![c, b, a]);
    let (a, b, c) = make();
    let mixed = resolve_collisions(vec![b, c, a]);
    for found in [&forward, &backward, &mixed] {
        let names: Vec<(&str, &str)> =
            found.iter().map(|s| (s.name.as_str(), s.dir_name.as_str())).collect();
        assert_eq!(names, [("a", "x"), ("b", "z")]);
    }
}

#[test]
fn precedence_order_keeps_equal_scopes_in_place() {
    let ordered = order_by_precedence(vec![
        document("r", "u1", "u1", "d", SkillScope::User),
        document("r", "f", "f", "d", SkillScope::Flow),
        document("r", "b", "b", "d", SkillScope::Builtin),
        document("r", "u2", "u2", "d", SkillScope::User),
        document("r", "p", "p", "d", SkillScope::Project),
    ]);
    let names: Vec<&str> = ordered.iter().map(|s| s.name.as_str()).collect();
    assert_eq!(names, ["f", "p", "u1", "u2", "b"]);
}

#[test]
fn survivors_are_sorted_by_name_and_distinct() {
    let found = resolve_collisions(vec![
        document("r", "c", "gamma", "1", SkillScope::User),
        document("r", "a", "alpha", "2", SkillScope::User),
        document("r", "b", "beta", "3", SkillScope::Builtin),
        document("s", "b", "delta", "4", SkillScope::Flow),
    ]);
    let names: Vec<_> = found.iter().map(|s| s.name.as_str()).collect();
    assert_eq!(names, ["alpha", "delta", "gamma"]);
    let sorted = sort_by_dir_name(found);
    let dirs: Vec<_> = sorted.iter().map(|s| s.dir_name.as_str()).collect();
    assert_eq!(dirs, ["a", "b", "c"]);
}

#[test]
fn sorting_by_directory_keeps_equal_ids_in_scan_order() {
    let found = vec![
        document("/r/b", "x", "second", "d", SkillScope::User),
        document("/r", "a", "alpha", "d", SkillScope::User),
        document("/r/a", "x", "first", "d", SkillScope::User),
        document("/r/c", "x", "third", "d", SkillScope::User),
    ];
    let sorted = sort_by_dir_name(found);
    let names: Vec<&str> = sorted.iter().map(|s| s.name.as_str()).collect();
    assert_eq!(names, ["alpha", "second", "first", "third"]);
}

#[test]
fn discovery_normalizes_metadata() {
    let mut f = frontmatter("renamed", "rich skill");
    f.platforms = vec!["linux".to_owned()];
    f.extra = vec![
        ("version".to_owned(), MetaValue::Other),
        ("author".to_owned(), text("Ada")),
        ("tags".to_owned(), list(&["old"])),
    ];
    f.metadata = vec![
        ("version".to_owned(), text("2")),
        ("author".to_owned(), text("Grace")),
        ("tags".to_owned(), list(&["new"])),
        ("related_skills".to_owned(), list(&["other"])),
        (
            "hermes".to_owned(),
            MetaValue::Mapping(vec![
                ("tags".to_owned(), list(&["hermes"])),
                ("related_skills".to_owned(), list(&["sibling"])),
            ]),
        ),
    ];
    let rich = load_document(
        Some((f, "Body\n".to_owned(), Vec::new())),
        "root/rich/SKILL.md",
        "rich",
        vec!["scripts/nested/run.sh".to_owned()],
        SkillScope::User,
    );
    assert_eq!(rich.name, "renamed");
    assert_eq!(rich.version, "2");
    assert_eq!(rich.author.as_deref(), Some("Grace"));
    assert_eq!(rich.tags, ["hermes", "new", "old"]);
    assert_eq!(rich.related_skills, ["other", "sibling"]);
    assert_eq!(rich.source_format, "hermes");
    assert_eq!(rich.resources, ["scripts/nested/run.sh"]);
    assert_eq!(
        rich.warnings,
        [
            "frontmatter name 'renamed' does not match directory 'rich'",
            "top-level 'tags' is deprecated; move under 'metadata.tags'",
        ]
    );
    assert!(!rich.legacy);
    assert_eq!(rich.read_body().as_deref(), Some("Body\n"));
}

#[test]
fn deprecated_keys_and_missing_metadata_fall_back() {
    let mut f = frontmatter("", "  ");
    f.extra = vec![("version".to_owned(), text("1")), ("author".to_owned(), text("Ada"))];
    let s = load_document(
        Some((f, "# Heading\n\nFirst useful line\n".to_owned(), Vec::new())),
        "root/fallback/WORKFLOW.md",
        "fallback",
        Vec::new(),
        SkillScope::Legacy,
    );
    assert_eq!(s.name, "fallback");
    assert_eq!(s.description, "First useful line");
    assert_eq!(s.version, "1");
    assert_eq!(s.author.as_deref(), Some("Ada"));
    assert_eq!(s.source_format, "agentskills");
    assert_eq!(
        s.warnings,
        [
            "frontmatter missing 'name'; using directory name",
            "frontmatter missing 'description'; falling back to first body line",
            "top-level 'version' is deprecated; move under 'metadata.version'",
            "top-level 'author' is deprecated; move under 'metadata.author'",
        ]
    );
    assert_eq!(s.read_body().as_deref(), Some("# Heading\n\nFirst useful line\n"));

    let long = frontmatter(&"n".repeat(65), &"d".repeat(1025));
    let s = load_document(Some((long, String::new(), Vec::new())), "x", &"n".repeat(65), Vec::new(), SkillScope::User);
    assert_eq!(
        s.warnings,
        [
            "frontmatter name is 65 chars (max recommended: 64)",
            "description is 1025 chars (max recommended: 1024)",
        ]
    );

    let placeholder = load_document(None, "root/broken/SKILL.md", "broken", Vec::new(), SkillScope::User);
    assert_eq!(placeholder.name, "broken");
    assert_eq!(placeholder.description, "No description provided");
    assert_eq!(placeholder.warnings[0], "could not parse root/broken/SKILL.md — exposing directory as placeholder");
    assert_eq!(first_body_line("# only\n\n  #no\n"), None);
    assert_eq!(first_body_line("\n  text  \r\nmore"), Some("text".to_owned()));
}

#[test]
fn legacy_manifests_keep_their_fields() {
    let manifest = LegacyManifest {
        name: "old".to_owned(),
        description: "legacy".to_owned(),
        version: "1".to_owned(),
        author: None,
        tags: Vec::new(),
        tools: Vec::new(),
        prompts: vec!["p.md".to_owned()],
    };
    let s = load_legacy(Some(manifest), "root/legacy/skill.json", "legacy", Vec::new(), SkillScope::User);
    assert_eq!(s.name, "old");
    assert_eq!(s.prompts, ["p.md"]);
    assert!(s.legacy);
    assert_eq!(s.source_format, "legacy");
    assert!(s.read_body().is_none());
    let broken = load_legacy(None, "root/broken/skill.json", "broken", Vec::new(), SkillScope::User);
    assert_eq!(broken.name, "broken");
    assert_eq!(broken.description, "No description provided");
    assert_eq!(
        broken.warnings,
        [
            "skill uses legacy skill.json; migrate to SKILL.md frontmatter",
            "could not parse root/broken/skill.json as JSON; using directory name",
        ]
    );
}

#[test]
fn discovery_filters_and_manifest_choice() {
    assert!(is_scannable_dir_name("skills"));
    assert!(!is_scannable_dir_name(".hidden"));
    assert!(!is_scannable_dir_name("node_modules"));
    assert!(!is_scannable_dir_name("venv"));
    assert_eq!(choose_manifest(true, true, true), Some(ManifestKind::Workflow));
    assert_eq!(choose_manifest(false, true, true), Some(ManifestKind::Skill));
    assert_eq!(choose_manifest(false, false, true), Some(ManifestKind::Legacy));
    assert_eq!(choose_manifest(false, false, false), None);
    let root = DiscoveryRoot::new("/home/me/.agents/skills", SkillScope::User);
    assert_eq!(root.path, "/home/me/.agents/skills");
    assert_eq!(root.scope, SkillScope::User);
}

#[test]
fn resource_paths_reject_every_unsafe_shape() {
    for path in ["", "/absolute", "./references/binary", "../outside", ".", "a/../b", "a/.."] {
        assert!(check_resource_path(path).is_err(), "{path}");
    }
    for path in ["references/guide.md", "references/./guide.md", "a//b", "..x/y", "a/.b"] {
        assert!(check_resource_path(path).is_ok(), "{path}");
    }
    assert_eq!(check_resource_metadata(true, true, 1), Err("resource path is a symlink".to_owned()));
    assert_eq!(check_resource_metadata(false, false, 1), Err("resource path is not a regular file".to_owned()));
    assert_eq!(
        check_resource_metadata(false, true, 128 * 1024 + 1),
        Err("resource file is 131073 bytes, exceeds limit of 131072".to_owned())
    );
    assert!(check_resource_metadata(false, true, 128 * 1024).is_ok());
    assert!(decode_resource(&[0xff]).is_err());
    assert_eq!(decode_resource("safe".as_bytes()), Ok("safe".to_owned()));
    assert_eq!(decode_text("é".as_bytes()), Some("é".to_owned()));
    assert!(path_within("/tmp/demo", "/tmp/demo/references/guide.md"));
    assert!(!path_within("/tmp/demo", "/tmp/demolition/x"));
    assert!(!path_within("/tmp/demo", "/tmp/outside/secret"));
    assert!(is_bounded_regular_file(true, false, 10, 10));
    assert!(!is_bounded_regular_file(true, false, 11, 10));
    assert!(!is_bounded_regular_file(true, true, 1, 10));
}

fn leak(files: Vec<BundledFile>) -> &'static [BundledFile] {
    Box::leak(files.into_boxed_slice())
}

static MANIFEST: &[BundledFile] = &[BundledFile { path: "SKILL.md", contents: "body" }];

#[test]
fn bundle_validation_rejects_unsafe_state() {
    static NO_MANIFEST: &[BundledFile] = &[BundledFile { path: "readme", contents: "x" }];
    for name in ["", ".hidden", "a/b", "a\\b"] {
        assert!(BundledSkill { dir_name: name, files: MANIFEST }.validate().is_err());
    }
    assert!(BundledSkill { dir_name: "empty", files: &[] }.validate().is_err());
    assert!(BundledSkill { dir_name: "demo", files: NO_MANIFEST }.validate().is_err());
    for path in ["", "/x", "a\\b", "a:b", "a//b", "a/./b", "a/../b", ".hidden/x"] {
        let files = leak(vec![
            BundledFile { path: "SKILL.md", contents: "body" },
            BundledFile { path: Box::leak(path.to_owned().into_boxed_str()), contents: "x" },
        ]);
        assert!(BundledSkill { dir_name: "demo", files }.validate().is_err(), "{path}");
    }
    let dup = leak(vec![
        BundledFile { path: "SKILL.md", contents: "body" },
        BundledFile { path: "SKILL.md", contents: "x" },
    ]);
    assert_eq!(
        BundledSkill { dir_name: "demo", files: dup }.validate(),
        Err("bundled skill `demo` contains duplicate file `SKILL.md`".to_owned())
    );
    assert!(BundledSkill { dir_name: "demo", files: MANIFEST }.validate().is_ok());
    assert_eq!(
        validate_relative_path("demo", "a/"),
        Err("bundled skill `demo` file `a/` has an unsafe component".to_owned())
    );
    assert_eq!(
        BundledSkill { dir_name: "bad/name", files: MANIFEST }.validate(),
        Err("invalid bundled skill dir_name `bad/name`".to_owned())
    );
}

#[test]
fn digests_cover_paths_and_contents() {
    let bundle = BundledSkill { dir_name: "demo", files: MANIFEST };
    assert_eq!(bundle.digest(), "fa16164932051e085b496c67d4129366468e19dce4b0c3a64559a2b36758004e");
    static BUNDLED: &[BundledFile] = &[BundledFile {
        path: "SKILL.md",
        contents: "---\nname: demo\ndescription: bundled\n---\n",
    }];
    let other = BundledSkill { dir_name: "demo", files: BUNDLED };
    assert_eq!(other.digest(), "b2bf0d3292a7025a236ace037e35fcc694954e298686d92b8cea6deca5b9f792");
    let bytes = digest_bytes(MANIFEST);
    assert_eq!(&bytes[..8], &[8, 0, 0, 0, 0, 0, 0, 0]);
    assert_eq!(&bytes[8..16], b"SKILL.md");
    assert_eq!(bytes.len(), 8 + 8 + 8 + 4);
    assert_eq!(to_hex(&[0x00, 0xab, 0x9f]), "00ab9f");
    assert!(digest_matches(" abc\n", "abc"));
    assert!(!digest_matches("abd", "abc"));
}

#[test]
fn digest_input_keeps_file_boundaries() {
    static JOINED: &[BundledFile] = &[BundledFile { path: "ab", contents: "c" }];
    static SPLIT: &[BundledFile] = &[BundledFile { path: "a", contents: "bc" }];
    static TWO: &[BundledFile] = &[
        BundledFile { path: "a", contents: "" },
        BundledFile { path: "b", contents: "c" },
    ];
    let joined = digest_bytes(JOINED);
    let split = digest_bytes(SPLIT);
    let two = digest_bytes(TWO);
    assert_ne!(joined, split);
    assert_ne!(joined, two);
    assert_ne!(split, two);
    assert_ne!(
        BundledSkill { dir_name: "x", files: JOINED }.digest(),
        BundledSkill { dir_name: "x", files: SPLIT }.digest()
    );
}

#[test]
fn install_reports_each_bundle_once() {
    let bundles = [
        BundledSkill { dir_name: "one", files: MANIFEST },
        BundledSkill { dir_name: "two", files: MANIFEST },
        BundledSkill { dir_name: "bad/name", files: MANIFEST },
    ];
    let report = install(&bundles, |bundle| {
        bundle.validate()?;
        Ok(bundle.dir_name == "one")
    });
    assert_eq!(report.written, ["one"]);
    assert_eq!(report.unchanged, ["two"]);
    assert_eq!(report.failed.len(), 1);
    assert_eq!(report.failed[0].0, "bad/name");
    assert_eq!(staging_name("demo", 7, 31001), ".demo.tmp-7-31001");
    assert_eq!(backup_name("demo", 7, 31002), ".demo.backup-7-31002");
}

#[test]
fn materialization_must_match_exactly() {
    let bundle = BundledSkill { dir_name: "demo", files: MANIFEST };
    let exact = Some(vec![
        TreeEntry { relative: "SKILL.md".to_owned(), kind: EntryKind::File },
        TreeEntry { relative: ".digest".to_owned(), kind: EntryKind::File },
    ]);
    let contents = vec![Some(b"body".to_vec())];
    assert!(materialization_matches(bundle, true, &contents, &exact));
    assert!(!materialization_matches(bundle, false, &contents, &exact));
    assert!(!materialization_matches(bundle, true, &vec![Some(b"tampered".to_vec())], &exact));
    assert!(!materialization_matches(bundle, true, &vec![None], &exact));
    let extra = Some(vec![
        TreeEntry { relative: "SKILL.md".to_owned(), kind: EntryKind::File },
        TreeEntry { relative: "extra".to_owned(), kind: EntryKind::File },
    ]);
    assert!(!materialization_matches(bundle, true, &contents, &extra));
    let link = Some(vec![TreeEntry { relative: "SKILL.md".to_owned(), kind: EntryKind::Other }]);
    assert!(!materialization_matches(bundle, true, &contents, &link));
    assert!(!materialization_matches(bundle, true, &contents, &None));
    let empty_dir = Some(vec![
        TreeEntry { relative: "SKILL.md".to_owned(), kind: EntryKind::File },
        TreeEntry { relative: "scripts".to_owned(), kind: EntryKind::Dir },
    ]);
    assert!(!materialization_matches(bundle, true, &contents, &empty_dir));
    static NESTED: &[BundledFile] = &[
        BundledFile { path: "SKILL.md", contents: "body" },
        BundledFile { path: "scripts/run.sh", contents: "x" },
    ];
    let nested = BundledSkill { dir_name: "demo", files: NESTED };
    let tree = Some(vec![
        TreeEntry { relative: "SKILL.md".to_owned(), kind: EntryKind::File },
        TreeEntry { relative: "scripts".to_owned(), kind: EntryKind::Dir },
        TreeEntry { relative: "scripts/run.sh".to_owned(), kind: EntryKind::File },
    ]);
    let both = vec![Some(b"body".to_vec()), Some(b"x".to_vec())];
    assert!(materialization_matches(nested, true, &both, &tree));
    let scr = Some(vec![TreeEntry { relative: "scr".to_owned(), kind: EntryKind::Dir }]);
    assert!(!materialization_matches(nested, true, &both, &scr));
}

#[test]
fn resource_folders_are_the_conventional_ones() {
    assert_eq!(
        resource_dir_names(),
        ["scripts", "references", "assets", "templates", "examples", "prompts"]
    );
    assert_eq!(MAX_RESOURCE_DEPTH, 64);
}

#[test]
fn walks_skip_symlinks_and_stop_at_the_depth_limit() {
    assert_eq!(walk_step(0, true, true, false), WalkStep::Skip);
    assert_eq!(walk_step(0, true, false, true), WalkStep::Skip);
    assert_eq!(walk_step(0, false, true, false), WalkStep::Descend);
    assert_eq!(walk_step(63, false, true, false), WalkStep::Descend);
    assert_eq!(walk_step(64, false, true, false), WalkStep::Skip);
    assert_eq!(walk_step(64, false, false, true), WalkStep::Record);
    assert_eq!(walk_step(0, false, false, false), WalkStep::Skip);
    assert!(scans_entry(false, true, "skills"));
    assert!(!scans_entry(true, true, "skills"));
    assert!(!scans_entry(false, false, "skills"));
    assert!(!scans_entry(false, true, ".hidden"));
    assert!(!scans_entry(false, true, "node_modules"));
}
