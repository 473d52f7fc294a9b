use tinyskills::resource_read::{read_step, ReadAction, ReadEvent, ReadRequest, ReadState};

fn request(relative: &str, root: Option<&str>) -> ReadRequest {
    ReadRequest {
        skill_name: "demo".to_owned(),
        relative: relative.to_owned(),
        root: root.map(str::to_owned),
    }
}

/// Feed `events` to a fresh read and return every action asked for.
fn drive(request: &ReadRequest, events: Vec<ReadEvent>) -> Vec<ReadAction> {
    let mut state = ReadState::Start;
    let mut actions = Vec::new();
    for event in events {
        let (next, action) = read_step(request, state, event);
        state = next;
        actions.push(action);
    }
    actions
}

fn outcome(actions: &[ReadAction]) -> Option<Result<String, String>> {
    match actions.last()? {
        ReadAction::Finish(result) => Some(result.clone()),
        _ => None,
    }
}

fn up_to_read(file: &str) -> Vec<ReadEvent> {
    vec![
        ReadEvent::Begin,
        ReadEvent::RootCanonicalized(Ok("/s/demo".to_owned())),
        ReadEvent::Inspected("/s/demo/references/a.md".to_owned(), Ok((vec![false, false], true, 5))),
        ReadEvent::FileCanonicalized(Ok(file.to_owned())),
    ]
}

#[test]
fn a_resource_inside_the_root_is_read_and_decoded() {
    let req = request("references/a.md", Some("/s/./demo"));
    let mut events = up_to_read("/s/demo/references/a.md");
    events.push(ReadEvent::BytesRead(Ok(b"hello".to_vec())));
    let actions = drive(&req, events);
    assert!(matches!(actions[0], ReadAction::CanonicalizeRoot));
    assert!(matches!(&actions[1], ReadAction::Inspect(root) if root == "/s/demo"));
    assert!(matches!(actions[2], ReadAction::CanonicalizeFile));
    assert!(matches!(&actions[3], ReadAction::ReadBytes(f) if f == "/s/demo/references/a.md"));
    assert_eq!(outcome(&actions), Some(Ok("hello".to_owned())));
}

#[test]
fn unsafe_paths_and_missing_locations_touch_nothing() {
    for relative in ["", "/abs", "./x", "a/../b", ".."] {
        let actions = drive(
            &request(relative, Some("/s/demo")),
            vec![ReadEvent::Begin, ReadEvent::RootCanonicalized(Ok("/s/demo".to_owned()))],
        );
        for action in &actions {
            assert!(matches!(action, ReadAction::Finish(Err(_))), "{relative}");
        }
    }
    let actions = drive(&request("a.md", None), vec![ReadEvent::Begin]);
    assert_eq!(
        outcome(&actions),
        Some(Err("skill 'demo' has no on-disk location".to_owned()))
    );
}

#[test]
fn each_refusal_has_its_message() {
    let req = request("references/a.md", Some("/s/demo"));
    let cases: Vec<(Vec<ReadEvent>, &str)> = vec![
        (
            vec![ReadEvent::Begin, ReadEvent::RootCanonicalized(Err("gone".to_owned()))],
            "failed to canonicalize skill root /s/demo: gone",
        ),
        (
            vec![
                ReadEvent::Begin,
                ReadEvent::RootCanonicalized(Ok("/c".to_owned())),
                ReadEvent::Inspected("/c/references/a.md".to_owned(), Err("missing".to_owned())),
            ],
            "failed to stat resource /c/references/a.md: missing",
        ),
        (
            vec![
                ReadEvent::Begin,
                ReadEvent::RootCanonicalized(Ok("/c".to_owned())),
                ReadEvent::Inspected("/c/references/a.md".to_owned(), Ok((vec![false, true], false, 1))),
            ],
            "resource path is a symlink",
        ),
        (
            vec![
                ReadEvent::Begin,
                ReadEvent::RootCanonicalized(Ok("/c".to_owned())),
                ReadEvent::Inspected("/c/references/a.md".to_owned(), Ok((vec![false, false], false, 1))),
            ],
            "resource path is not a regular file",
        ),
        (
            vec![
                ReadEvent::Begin,
                ReadEvent::RootCanonicalized(Ok("/c".to_owned())),
                ReadEvent::Inspected("/c/references/a.md".to_owned(), Ok((vec![false, false], true, 131073))),
            ],
            "resource file is 131073 bytes, exceeds limit of 131072",
        ),
        (
            vec![
                ReadEvent::Begin,
                ReadEvent::RootCanonicalized(Ok("/c".to_owned())),
                ReadEvent::Inspected("/c/references/a.md".to_owned(), Ok((vec![false, false], true, 1))),
                ReadEvent::FileCanonicalized(Err("loop".to_owned())),
            ],
            "failed to canonicalize resource /c/references/a.md: loop",
        ),
    ];
    for (events, expected) in cases {
        assert_eq!(outcome(&drive(&req, events)), Some(Err(expected.to_owned())), "{expected}");
    }
    let escaped = drive(&req, up_to_read("/s/other/secret"));
    assert_eq!(
        outcome(&escaped),
        Some(Err("resource path escapes skill root: /s/other/secret".to_owned()))
    );
    let mut unreadable = up_to_read("/s/demo/references/a.md");
    unreadable.push(ReadEvent::BytesRead(Err("denied".to_owned())));
    assert_eq!(
        outcome(&drive(&req, unreadable)),
        Some(Err("failed to read resource /s/demo/references/a.md: denied".to_owned()))
    );
    let mut binary = up_to_read("/s/demo/references/a.md");
    binary.push(ReadEvent::BytesRead(Ok(vec![0xff, 0x00])));
    assert_eq!(
        outcome(&drive(&req, binary)),
        Some(Err(
            "resource is not valid UTF-8 text: invalid utf-8 sequence of 1 bytes from index 0"
                .to_owned()
        ))
    );
}

#[test]
fn a_sibling_with_a_longer_name_is_outside_the_root() {
    let req = request("references/a.md", Some("/s/demo"));
    let actions = drive(&req, up_to_read("/s/demo2/references/a.md"));
    assert_eq!(
        outcome(&actions),
        Some(Err("resource path escapes skill root: /s/demo2/references/a.md".to_owned()))
    );
}

#[test]
fn a_symlinked_folder_on_the_way_is_refused() {
    let req = request("references/alias/guide.md", Some("/s/demo"));
    let actions = drive(
        &req,
        vec![
            ReadEvent::Begin,
            ReadEvent::RootCanonicalized(Ok("/s/demo".to_owned())),
            ReadEvent::Inspected(
                "/s/demo/references/alias/guide.md".to_owned(),
                Ok((vec![false, true], false, 0)),
            ),
            ReadEvent::FileCanonicalized(Ok("/s/demo/references/guide.md".to_owned())),
        ],
    );
    assert_eq!(outcome(&actions), Some(Err("resource path is a symlink".to_owned())));
    assert!(!actions.iter().any(|a| matches!(a, ReadAction::ReadBytes(_))));
}
