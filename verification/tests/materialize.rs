use tinyskills::bundle::{BundledFile, BundledSkill};
use tinyskills::materialize::{
    install_step, InstallAction, InstallEvent, InstallPaths, InstallState, StageFailure,
};

static FILES: &[BundledFile] = &[BundledFile { path: "SKILL.md", contents: "body" }];

const DEMO_DIGEST: &str = "fa16164932051e085b496c67d4129366468e19dce4b0c3a64559a2b36758004e";

fn demo() -> BundledSkill {
    BundledSkill { dir_name: "demo", files: FILES }
}

fn paths() -> InstallPaths {
    InstallPaths {
        root: "/r".to_owned(),
        dir: "/r/demo".to_owned(),
        staging: "/r/.demo.tmp-7-0".to_owned(),
        backup: "/r/.demo.backup-7-0".to_owned(),
        digest_file: "/r/demo/.digest".to_owned(),
    }
}

/// Feed `events` to a fresh installation and return every action asked for.
fn run(bundle: BundledSkill, events: Vec<InstallEvent>) -> Vec<InstallAction> {
    let paths = paths();
    let mut state = InstallState::Start;
    let mut actions = Vec::new();
    for event in events {
        let (next, action) = install_step(bundle, &paths, state, event);
        state = next;
        actions.push(action);
    }
    actions
}

fn finished_with(action: &InstallAction) -> Option<Result<bool, String>> {
    match action {
        InstallAction::Finish(result) => Some(result.clone()),
        _ => None,
    }
}

#[test]
fn replacing_an_old_copy_walks_every_step() {
    let actions = run(
        demo(),
        vec![
            InstallEvent::Begin,
            InstallEvent::RootCreated(Ok(())),
            InstallEvent::RootInspected(Ok((true, false))),
            InstallEvent::DigestRead(Some("stale".to_owned())),
            InstallEvent::Staged(Ok(())),
            InstallEvent::TargetInspected(Ok(true)),
            InstallEvent::OldMoved(Ok(())),
            InstallEvent::Published(Ok(())),
            InstallEvent::BackupRemoved(Ok(())),
        ],
    );
    assert!(matches!(actions[0], InstallAction::CreateRoot));
    assert!(matches!(actions[1], InstallAction::InspectRoot));
    assert!(matches!(&actions[2], InstallAction::ReadDigest(d) if d == DEMO_DIGEST));
    assert!(matches!(&actions[3], InstallAction::Stage(d) if d == DEMO_DIGEST));
    assert!(matches!(actions[4], InstallAction::InspectTarget));
    assert!(matches!(actions[5], InstallAction::MoveOld));
    assert!(matches!(actions[6], InstallAction::Publish));
    assert!(matches!(actions[7], InstallAction::RemoveBackup));
    assert_eq!(finished_with(&actions[8]), Some(Ok(true)));
}

#[test]
fn a_current_copy_is_left_alone() {
    let actions = run(
        demo(),
        vec![
            InstallEvent::Begin,
            InstallEvent::RootCreated(Ok(())),
            InstallEvent::RootInspected(Ok((true, false))),
            InstallEvent::DigestRead(Some(format!(" {DEMO_DIGEST}\n"))),
            InstallEvent::TreeChecked(true),
        ],
    );
    assert!(matches!(actions[3], InstallAction::CheckTree));
    assert_eq!(finished_with(&actions[4]), Some(Ok(false)));
}

#[test]
fn a_tampered_tree_is_rewritten_without_an_old_copy() {
    let actions = run(
        demo(),
        vec![
            InstallEvent::Begin,
            InstallEvent::RootCreated(Ok(())),
            InstallEvent::RootInspected(Ok((true, false))),
            InstallEvent::DigestRead(Some(DEMO_DIGEST.to_owned())),
            InstallEvent::TreeChecked(false),
            InstallEvent::Staged(Ok(())),
            InstallEvent::TargetInspected(Ok(false)),
            InstallEvent::Published(Ok(())),
        ],
    );
    assert!(matches!(&actions[4], InstallAction::Stage(d) if d == DEMO_DIGEST));
    assert!(matches!(actions[6], InstallAction::Publish));
    assert_eq!(finished_with(&actions[7]), Some(Ok(true)));
}

#[test]
fn a_failed_publish_restores_the_old_copy() {
    let actions = run(
        demo(),
        vec![
            InstallEvent::Begin,
            InstallEvent::RootCreated(Ok(())),
            InstallEvent::RootInspected(Ok((true, false))),
            InstallEvent::DigestRead(None),
            InstallEvent::Staged(Ok(())),
            InstallEvent::TargetInspected(Ok(true)),
            InstallEvent::OldMoved(Ok(())),
            InstallEvent::Published(Err("busy".to_owned())),
            InstallEvent::RolledBack,
        ],
    );
    assert!(matches!(actions[7], InstallAction::RollBack(true)));
    assert_eq!(
        finished_with(&actions[8]),
        Some(Err("failed to publish /r/demo: busy".to_owned()))
    );
}

#[test]
fn a_failed_first_publish_only_cleans_up() {
    let actions = run(
        demo(),
        vec![
            InstallEvent::Begin,
            InstallEvent::RootCreated(Ok(())),
            InstallEvent::RootInspected(Ok((true, false))),
            InstallEvent::DigestRead(None),
            InstallEvent::Staged(Ok(())),
            InstallEvent::TargetInspected(Ok(false)),
            InstallEvent::Published(Err("busy".to_owned())),
        ],
    );
    assert!(matches!(actions[6], InstallAction::RollBack(false)));
}

#[test]
fn each_failure_is_reported_with_its_path() {
    let prefix = |rest: Vec<InstallEvent>| {
        let mut events = vec![
            InstallEvent::Begin,
            InstallEvent::RootCreated(Ok(())),
            InstallEvent::RootInspected(Ok((true, false))),
            InstallEvent::DigestRead(None),
        ];
        events.extend(rest);
        events
    };
    let cases: Vec<(Vec<InstallEvent>, &str)> = vec![
        (
            vec![InstallEvent::Begin, InstallEvent::RootCreated(Err("denied".to_owned()))],
            "failed to create bundle root /r: denied",
        ),
        (
            vec![
                InstallEvent::Begin,
                InstallEvent::RootCreated(Ok(())),
                InstallEvent::RootInspected(Err("gone".to_owned())),
            ],
            "failed to inspect bundle root /r: gone",
        ),
        (
            vec![
                InstallEvent::Begin,
                InstallEvent::RootCreated(Ok(())),
                InstallEvent::RootInspected(Ok((true, true))),
            ],
            "bundle root /r is not a real directory",
        ),
        (
            vec![
                InstallEvent::Begin,
                InstallEvent::RootCreated(Ok(())),
                InstallEvent::RootInspected(Ok((false, false))),
            ],
            "bundle root /r is not a real directory",
        ),
        (
            prefix(vec![InstallEvent::Staged(Err(StageFailure::CreateStaging("exists".to_owned())))]),
            "failed to create staging directory /r/.demo.tmp-7-0: exists",
        ),
        (
            prefix(vec![InstallEvent::Staged(Err(StageFailure::CreateParent(
                    "/r/.demo.tmp-7-0/a".to_owned(),
                    "full".to_owned(),
                )))]),
            "failed to create /r/.demo.tmp-7-0/a: full",
        ),
        (
            prefix(vec![InstallEvent::Staged(Err(StageFailure::WriteFile(
                    "/r/.demo.tmp-7-0/SKILL.md".to_owned(),
                    "full".to_owned(),
                )))]),
            "failed to write /r/.demo.tmp-7-0/SKILL.md: full",
        ),
        (
            prefix(vec![InstallEvent::Staged(Err(StageFailure::WriteDigest("full".to_owned())))]),
            "failed to write /r/demo/.digest: full",
        ),
        (
            prefix(vec![InstallEvent::Staged(Ok(())), InstallEvent::TargetInspected(Err("io".to_owned()))]),
            "failed to inspect /r/demo: io",
        ),
        (
            prefix(vec![
                    InstallEvent::Staged(Ok(())),
                    InstallEvent::TargetInspected(Ok(true)),
                    InstallEvent::OldMoved(Err("busy".to_owned())),
                ]),
            "failed to stage old bundle /r/demo: busy",
        ),
        (
            prefix(vec![
                    InstallEvent::Staged(Ok(())),
                    InstallEvent::TargetInspected(Ok(true)),
                    InstallEvent::OldMoved(Ok(())),
                    InstallEvent::Published(Ok(())),
                    InstallEvent::BackupRemoved(Err("busy".to_owned())),
                ]),
            "failed to remove old bundle /r/.demo.backup-7-0: busy",
        ),
    ];
    for (events, expected) in cases {
        let actions = run(demo(), events);
        assert_eq!(
            finished_with(actions.last().unwrap()),
            Some(Err(expected.to_owned())),
            "{expected}"
        );
    }
}

#[test]
fn an_invalid_bundle_is_never_touched() {
    let bad = BundledSkill { dir_name: ".hidden", files: FILES };
    let actions = run(
        bad,
        vec![InstallEvent::Begin, InstallEvent::RootCreated(Ok(())), InstallEvent::Published(Ok(()))],
    );
    for action in &actions {
        assert_eq!(
            finished_with(action),
            Some(Err("invalid bundled skill dir_name `.hidden`".to_owned()))
        );
    }
}

#[test]
fn an_answer_to_another_question_repeats_the_request() {
    let actions = run(
        demo(),
        vec![
            InstallEvent::Begin,
            InstallEvent::TreeChecked(true),
            InstallEvent::RootCreated(Ok(())),
            InstallEvent::Published(Ok(())),
        ],
    );
    assert!(matches!(actions[1], InstallAction::CreateRoot));
    assert!(matches!(actions[2], InstallAction::InspectRoot));
    assert!(matches!(actions[3], InstallAction::InspectRoot));
}
