//! Materializing one compiled-in bundle, as a state machine: the filesystem
//! driver performs each requested action and answers with what happened.
//!
//! The bundle is validated, its root made sure to be a real directory, its
//! recorded digest and tree compared with the compiled contents, and only a
//! stale copy is replaced: the new tree is staged beside it, the old one is
//! moved aside, the new one published, and the old one removed. A failed
//! publish moves the old copy back.

use vstd::prelude::*;
use crate::bundle::{BundledSkill, bundle_error, digest_input, hex_lower, sha256_of};
use crate::text::{concat3, copy_string, trim};

verus! {

broadcast use vstd::string::group_string_axioms;

/// Display texts of the paths that installing one bundle touches.
#[derive(Debug)]
pub struct InstallPaths {
    /// The bundle root.
    pub root: String,
    /// The bundle's own directory below the root.
    pub dir: String,
    /// The staging directory beside it.
    pub staging: String,
    /// The backup directory beside it.
    pub backup: String,
    /// The digest file inside the bundle's directory.
    pub digest_file: String,
}

/// [`InstallPaths`] as text.
pub struct PathsView {
    pub root: Seq<char>,
    pub dir: Seq<char>,
    pub staging: Seq<char>,
    pub backup: Seq<char>,
    pub digest_file: Seq<char>,
}

impl View for InstallPaths {
    type V = PathsView;

    open spec fn view(&self) -> PathsView {
        PathsView {
            root: self.root@,
            dir: self.dir@,
            staging: self.staging@,
            backup: self.backup@,
            digest_file: self.digest_file@,
        }
    }
}

/// Why staging the new tree failed.
#[derive(Debug)]
pub enum StageFailure {
    /// The staging directory could not be created: the error.
    CreateStaging(String),
    /// A file's parent directory could not be created: its path and the error.
    CreateParent(String, String),
    /// A file could not be written: its path and the error.
    WriteFile(String, String),
    /// The digest file could not be written: the error.
    WriteDigest(String),
}

/// [`StageFailure`] as text.
pub enum StageFailureView {
    CreateStaging(Seq<char>),
    CreateParent(Seq<char>, Seq<char>),
    WriteFile(Seq<char>, Seq<char>),
    WriteDigest(Seq<char>),
}

impl View for StageFailure {
    type V = StageFailureView;

    open spec fn view(&self) -> StageFailureView {
        match self {
            StageFailure::CreateStaging(e) => StageFailureView::CreateStaging(e@),
            StageFailure::CreateParent(p, e) => StageFailureView::CreateParent(p@, e@),
            StageFailure::WriteFile(p, e) => StageFailureView::WriteFile(p@, e@),
            StageFailure::WriteDigest(e) => StageFailureView::WriteDigest(e@),
        }
    }
}

/// What the driver reports back; errors carry the error's text.
#[derive(Debug)]
pub enum InstallEvent {
    /// Start the installation.
    Begin,
    /// The bundle root was created (or already existed).
    RootCreated(Result<(), String>),
    /// The root was inspected: whether it is a directory, and whether a symlink.
    RootInspected(Result<(bool, bool), String>),
    /// The recorded digest, when the bundle's directory and digest file are
    /// real and the digest file could be read as text.
    DigestRead(Option<String>),
    /// Whether the materialized tree matches the bundle exactly.
    TreeChecked(bool),
    /// The new tree and its digest file were written to the staging directory.
    Staged(Result<(), StageFailure>),
    /// Whether something exists at the bundle's directory.
    TargetInspected(Result<bool, String>),
    /// The old copy was moved to the backup directory.
    OldMoved(Result<(), String>),
    /// The staging directory was renamed to the bundle's directory.
    Published(Result<(), String>),
    /// The rollback was carried out.
    RolledBack,
    /// The backup directory was removed.
    BackupRemoved(Result<(), String>),
}

/// [`InstallEvent`] as text.
pub enum EventView {
    Begin,
    RootCreated(Result<(), Seq<char>>),
    RootInspected(Result<(bool, bool), Seq<char>>),
    DigestRead(Option<Seq<char>>),
    TreeChecked(bool),
    Staged(Result<(), StageFailureView>),
    TargetInspected(Result<bool, Seq<char>>),
    OldMoved(Result<(), Seq<char>>),
    Published(Result<(), Seq<char>>),
    RolledBack,
    BackupRemoved(Result<(), Seq<char>>),
}

/// The text of a unit result's error.
pub open spec fn unit_view(r: Result<(), String>) -> Result<(), Seq<char>> {
    match r {
        Ok(()) => Ok(()),
        Err(e) => Err(e@),
    }
}

impl View for InstallEvent {
    type V = EventView;

    open spec fn view(&self) -> EventView {
        match self {
            InstallEvent::Begin => EventView::Begin,
            InstallEvent::RootCreated(r) => EventView::RootCreated(unit_view(*r)),
            InstallEvent::RootInspected(r) => EventView::RootInspected(
                match r {
                    Ok(kind) => Ok(*kind),
                    Err(e) => Err(e@),
                },
            ),
            InstallEvent::DigestRead(t) => EventView::DigestRead(
                match t {
                    Some(t) => Some(t@),
                    None => None,
                },
            ),
            InstallEvent::TreeChecked(b) => EventView::TreeChecked(*b),
            InstallEvent::Staged(r) => EventView::Staged(
                match r {
                    Ok(()) => Ok(()),
                    Err(f) => Err(f@),
                },
            ),
            InstallEvent::TargetInspected(r) => EventView::TargetInspected(
                match r {
                    Ok(b) => Ok(*b),
                    Err(e) => Err(e@),
                },
            ),
            InstallEvent::OldMoved(r) => EventView::OldMoved(unit_view(*r)),
            InstallEvent::Published(r) => EventView::Published(unit_view(*r)),
            InstallEvent::RolledBack => EventView::RolledBack,
            InstallEvent::BackupRemoved(r) => EventView::BackupRemoved(unit_view(*r)),
        }
    }
}

/// Where an installation stands.
#[derive(Debug)]
pub enum InstallState {
    /// Nothing done yet.
    Start,
    /// Waiting for the root to be created.
    CreatingRoot,
    /// Waiting for the root to be inspected.
    InspectingRoot,
    /// Waiting for the recorded digest.
    ReadingDigest,
    /// Waiting for the tree comparison.
    CheckingTree,
    /// Waiting for the new tree to be staged.
    Staging,
    /// Waiting to learn whether an old copy exists.
    InspectingTarget,
    /// Waiting for the old copy to be moved aside.
    MovingOld,
    /// Waiting for the publish; whether an old copy was moved aside.
    Publishing(bool),
    /// Waiting for the rollback; whether to restore the old copy, and the
    /// error to report afterwards.
    RollingBack(bool, String),
    /// Waiting for the backup to be removed.
    RemovingBackup,
    /// Done, with the installation's result: `Ok(true)` when written,
    /// `Ok(false)` when already current.
    Finished(Result<bool, String>),
}

/// [`InstallState`] as text.
pub enum StateView {
    Start,
    CreatingRoot,
    InspectingRoot,
    ReadingDigest,
    CheckingTree,
    Staging,
    InspectingTarget,
    MovingOld,
    Publishing(bool),
    RollingBack(bool, Seq<char>),
    RemovingBackup,
    Finished(Result<bool, Seq<char>>),
}

/// The text of an installation result's error.
pub open spec fn result_view(r: Result<bool, String>) -> Result<bool, Seq<char>> {
    match r {
        Ok(b) => Ok(b),
        Err(e) => Err(e@),
    }
}

impl View for InstallState {
    type V = StateView;

    open spec fn view(&self) -> StateView {
        match self {
            InstallState::Start => StateView::Start,
            InstallState::CreatingRoot => StateView::CreatingRoot,
            InstallState::InspectingRoot => StateView::InspectingRoot,
            InstallState::ReadingDigest => StateView::ReadingDigest,
            InstallState::CheckingTree => StateView::CheckingTree,
            InstallState::Staging => StateView::Staging,
            InstallState::InspectingTarget => StateView::InspectingTarget,
            InstallState::MovingOld => StateView::MovingOld,
            InstallState::Publishing(h) => StateView::Publishing(*h),
            InstallState::RollingBack(h, e) => StateView::RollingBack(*h, e@),
            InstallState::RemovingBackup => StateView::RemovingBackup,
            InstallState::Finished(r) => StateView::Finished(result_view(*r)),
        }
    }
}

/// What the driver is asked to do next.
#[derive(Debug)]
pub enum InstallAction {
    /// Create the bundle root and its parents.
    CreateRoot,
    /// Inspect the root without following symlinks.
    InspectRoot,
    /// Read the recorded digest, expecting this one.
    ReadDigest(String),
    /// Compare the materialized tree with the bundle.
    CheckTree,
    /// Write the files and this digest into a fresh staging directory.
    Stage(String),
    /// Inspect the bundle's directory without following symlinks.
    InspectTarget,
    /// Move the old copy to the backup directory.
    MoveOld,
    /// Rename the staging directory to the bundle's directory.
    Publish,
    /// Remove the staging directory, moving the backup back first when told.
    RollBack(bool),
    /// Remove the backup directory.
    RemoveBackup,
    /// Stop with this result.
    Finish(Result<bool, String>),
}

/// [`InstallAction`] as text.
pub enum ActionView {
    CreateRoot,
    InspectRoot,
    ReadDigest(Seq<char>),
    CheckTree,
    Stage(Seq<char>),
    InspectTarget,
    MoveOld,
    Publish,
    RollBack(bool),
    RemoveBackup,
    Finish(Result<bool, Seq<char>>),
}

impl View for InstallAction {
    type V = ActionView;

    open spec fn view(&self) -> ActionView {
        match self {
            InstallAction::CreateRoot => ActionView::CreateRoot,
            InstallAction::InspectRoot => ActionView::InspectRoot,
            InstallAction::ReadDigest(d) => ActionView::ReadDigest(d@),
            InstallAction::CheckTree => ActionView::CheckTree,
            InstallAction::Stage(d) => ActionView::Stage(d@),
            InstallAction::InspectTarget => ActionView::InspectTarget,
            InstallAction::MoveOld => ActionView::MoveOld,
            InstallAction::Publish => ActionView::Publish,
            InstallAction::RollBack(h) => ActionView::RollBack(*h),
            InstallAction::RemoveBackup => ActionView::RemoveBackup,
            InstallAction::Finish(r) => ActionView::Finish(result_view(*r)),
        }
    }
}

/// The digest of a bundle, as [`BundledSkill::digest`] computes it.
pub open spec fn digest_text(b: BundledSkill) -> Seq<char> {
    hex_lower(sha256_of(digest_input(b.files@)))
}

/// The action that a state waits on.
pub open spec fn pending(b: BundledSkill, s: StateView) -> ActionView {
    match s {
        StateView::Start => ActionView::CreateRoot,
        StateView::CreatingRoot => ActionView::CreateRoot,
        StateView::InspectingRoot => ActionView::InspectRoot,
        StateView::ReadingDigest => ActionView::ReadDigest(digest_text(b)),
        StateView::CheckingTree => ActionView::CheckTree,
        StateView::Staging => ActionView::Stage(digest_text(b)),
        StateView::InspectingTarget => ActionView::InspectTarget,
        StateView::MovingOld => ActionView::MoveOld,
        StateView::Publishing(_) => ActionView::Publish,
        StateView::RollingBack(restore, _) => ActionView::RollBack(restore),
        StateView::RemovingBackup => ActionView::RemoveBackup,
        StateView::Finished(r) => ActionView::Finish(r),
    }
}

/// Stop with an error.
pub open spec fn fail(m: Seq<char>) -> (StateView, ActionView) {
    (StateView::Finished(Err(m)), ActionView::Finish(Err(m)))
}

/// Error for a staging failure.
pub open spec fn stage_message(p: PathsView, f: StageFailureView) -> Seq<char> {
    match f {
        StageFailureView::CreateStaging(e) => "failed to create staging directory "@ + p.staging
            + ": "@ + e,
        StageFailureView::CreateParent(path, e) => "failed to create "@ + path + ": "@ + e,
        StageFailureView::WriteFile(path, e) => "failed to write "@ + path + ": "@ + e,
        StageFailureView::WriteDigest(e) => "failed to write "@ + p.digest_file + ": "@ + e,
    }
}

/// One step of an installation: from state `s` and the driver's answer `e`,
/// the next state and the next action. An answer that does not belong to
/// the state leaves it unchanged and asks the pending action again.
pub open spec fn install_next(b: BundledSkill, p: PathsView, s: StateView, e: EventView) -> (
    StateView,
    ActionView,
) {
    let stay = (s, pending(b, s));
    match s {
        StateView::Start => match bundle_error(b) {
            Some(m) => fail(m),
            None => (StateView::CreatingRoot, ActionView::CreateRoot),
        },
        StateView::CreatingRoot => match e {
            EventView::RootCreated(Err(x)) => fail(
                "failed to create bundle root "@ + p.root + ": "@ + x,
            ),
            EventView::RootCreated(Ok(())) => (StateView::InspectingRoot, ActionView::InspectRoot),
            _ => stay,
        },
        StateView::InspectingRoot => match e {
            EventView::RootInspected(Err(x)) => fail(
                "failed to inspect bundle root "@ + p.root + ": "@ + x,
            ),
            EventView::RootInspected(Ok((is_dir, is_symlink))) => if !is_dir || is_symlink {
                fail("bundle root "@ + p.root + " is not a real directory"@)
            } else {
                (StateView::ReadingDigest, ActionView::ReadDigest(digest_text(b)))
            },
            _ => stay,
        },
        StateView::ReadingDigest => match e {
            EventView::DigestRead(Some(t)) => if trim(t) == digest_text(b) {
                (StateView::CheckingTree, ActionView::CheckTree)
            } else {
                (StateView::Staging, ActionView::Stage(digest_text(b)))
            },
            EventView::DigestRead(None) => (StateView::Staging, ActionView::Stage(digest_text(b))),
            _ => stay,
        },
        StateView::CheckingTree => match e {
            EventView::TreeChecked(true) => (
                StateView::Finished(Ok(false)),
                ActionView::Finish(Ok(false)),
            ),
            EventView::TreeChecked(false) => (StateView::Staging, ActionView::Stage(digest_text(b))),
            _ => stay,
        },
        StateView::Staging => match e {
            EventView::Staged(Err(f)) => fail(stage_message(p, f)),
            EventView::Staged(Ok(())) => (StateView::InspectingTarget, ActionView::InspectTarget),
            _ => stay,
        },
        StateView::InspectingTarget => match e {
            EventView::TargetInspected(Err(x)) => fail("failed to inspect "@ + p.dir + ": "@ + x),
            EventView::TargetInspected(Ok(true)) => (StateView::MovingOld, ActionView::MoveOld),
            EventView::TargetInspected(Ok(false)) => (
                StateView::Publishing(false),
                ActionView::Publish,
            ),
            _ => stay,
        },
        StateView::MovingOld => match e {
            EventView::OldMoved(Err(x)) => fail("failed to stage old bundle "@ + p.dir + ": "@ + x),
            EventView::OldMoved(Ok(())) => (StateView::Publishing(true), ActionView::Publish),
            _ => stay,
        },
        StateView::Publishing(had_existing) => match e {
            EventView::Published(Err(x)) => (
                StateView::RollingBack(had_existing, "failed to publish "@ + p.dir + ": "@ + x),
                ActionView::RollBack(had_existing),
            ),
            EventView::Published(Ok(())) => if had_existing {
                (StateView::RemovingBackup, ActionView::RemoveBackup)
            } else {
                (StateView::Finished(Ok(true)), ActionView::Finish(Ok(true)))
            },
            _ => stay,
        },
        StateView::RollingBack(_, m) => match e {
            EventView::RolledBack => fail(m),
            _ => stay,
        },
        StateView::RemovingBackup => match e {
            EventView::BackupRemoved(Err(x)) => fail(
                "failed to remove old bundle "@ + p.backup + ": "@ + x,
            ),
            EventView::BackupRemoved(Ok(())) => (
                StateView::Finished(Ok(true)),
                ActionView::Finish(Ok(true)),
            ),
            _ => stay,
        },
        StateView::Finished(_) => stay,
    }
}

/// The action that `state` waits on.
fn pending_action(bundle: BundledSkill, state: &InstallState) -> (r: InstallAction)
    ensures
        r@ == pending(bundle, state@),
{
    match state {
        InstallState::Start => InstallAction::CreateRoot,
        InstallState::CreatingRoot => InstallAction::CreateRoot,
        InstallState::InspectingRoot => InstallAction::InspectRoot,
        InstallState::ReadingDigest => InstallAction::ReadDigest(bundle.digest()),
        InstallState::CheckingTree => InstallAction::CheckTree,
        InstallState::Staging => InstallAction::Stage(bundle.digest()),
        InstallState::InspectingTarget => InstallAction::InspectTarget,
        InstallState::MovingOld => InstallAction::MoveOld,
        InstallState::Publishing(_) => InstallAction::Publish,
        InstallState::RollingBack(restore, _) => InstallAction::RollBack(*restore),
        InstallState::RemovingBackup => InstallAction::RemoveBackup,
        InstallState::Finished(Ok(written)) => InstallAction::Finish(Ok(*written)),
        InstallState::Finished(Err(e)) => InstallAction::Finish(Err(copy_string(e))),
    }
}

fn failed(m: String) -> (r: (InstallState, InstallAction))
    ensures
        (r.0@, r.1@) == fail(m@),
{
    let again = copy_string(&m);
    (InstallState::Finished(Err(m)), InstallAction::Finish(Err(again)))
}

fn stage_error(paths: &InstallPaths, f: StageFailure) -> (r: String)
    ensures
        r@ == stage_message(paths@, f@),
{
    match f {
        StageFailure::CreateStaging(e) => {
            let mut m = concat3("failed to create staging directory ", paths.staging.as_str(), ": ");
            m.append(e.as_str());
            m
        },
        StageFailure::CreateParent(path, e) => concat3("failed to create ", path.as_str(), ": ").concat(
            e.as_str(),
        ),
        StageFailure::WriteFile(path, e) => concat3("failed to write ", path.as_str(), ": ").concat(
            e.as_str(),
        ),
        StageFailure::WriteDigest(e) => concat3(
            "failed to write ",
            paths.digest_file.as_str(),
            ": ",
        ).concat(e.as_str()),
    }
}

/// Advance an installation of `bundle` by one step: given the state and the
/// driver's answer to the last action, the next state and action.
pub fn install_step(
    bundle: BundledSkill,
    paths: &InstallPaths,
    state: InstallState,
    event: InstallEvent,
) -> (r: (InstallState, InstallAction))
    ensures
        (r.0@, r.1@) == install_next(bundle, paths@, state@, event@),
{
    match state {
        InstallState::Start => match bundle.validate() {
            Err(m) => failed(m),
            Ok(()) => (InstallState::CreatingRoot, InstallAction::CreateRoot),
        },
        InstallState::CreatingRoot => match event {
            InstallEvent::RootCreated(Err(x)) => failed(
                concat3("failed to create bundle root ", paths.root.as_str(), ": ").concat(x.as_str()),
            ),
            InstallEvent::RootCreated(Ok(())) => (
                InstallState::InspectingRoot,
                InstallAction::InspectRoot,
            ),
            _ => (InstallState::CreatingRoot, InstallAction::CreateRoot),
        },
        InstallState::InspectingRoot => match event {
            InstallEvent::RootInspected(Err(x)) => failed(
                concat3("failed to inspect bundle root ", paths.root.as_str(), ": ").concat(
                    x.as_str(),
                ),
            ),
            InstallEvent::RootInspected(Ok((is_dir, is_symlink))) => if !is_dir || is_symlink {
                failed(concat3("bundle root ", paths.root.as_str(), " is not a real directory"))
            } else {
                (InstallState::ReadingDigest, InstallAction::ReadDigest(bundle.digest()))
            },
            _ => (InstallState::InspectingRoot, InstallAction::InspectRoot),
        },
        InstallState::ReadingDigest => match event {
            InstallEvent::DigestRead(Some(t)) => {
                let digest = bundle.digest();
                if crate::bundle::digest_matches(t.as_str(), digest.as_str()) {
                    (InstallState::CheckingTree, InstallAction::CheckTree)
                } else {
                    (InstallState::Staging, InstallAction::Stage(digest))
                }
            },
            InstallEvent::DigestRead(None) => (
                InstallState::Staging,
                InstallAction::Stage(bundle.digest()),
            ),
            _ => (InstallState::ReadingDigest, InstallAction::ReadDigest(bundle.digest())),
        },
        InstallState::CheckingTree => match event {
            InstallEvent::TreeChecked(true) => (
                InstallState::Finished(Ok(false)),
                InstallAction::Finish(Ok(false)),
            ),
            InstallEvent::TreeChecked(false) => (
                InstallState::Staging,
                InstallAction::Stage(bundle.digest()),
            ),
            _ => (InstallState::CheckingTree, InstallAction::CheckTree),
        },
        InstallState::Staging => match event {
            InstallEvent::Staged(Err(f)) => failed(stage_error(paths, f)),
            InstallEvent::Staged(Ok(())) => (
                InstallState::InspectingTarget,
                InstallAction::InspectTarget,
            ),
            _ => (InstallState::Staging, InstallAction::Stage(bundle.digest())),
        },
        InstallState::InspectingTarget => match event {
            InstallEvent::TargetInspected(Err(x)) => failed(
                concat3("failed to inspect ", paths.dir.as_str(), ": ").concat(x.as_str()),
            ),
            InstallEvent::TargetInspected(Ok(true)) => (
                InstallState::MovingOld,
                InstallAction::MoveOld,
            ),
            InstallEvent::TargetInspected(Ok(false)) => (
                InstallState::Publishing(false),
                InstallAction::Publish,
            ),
            _ => (InstallState::InspectingTarget, InstallAction::InspectTarget),
        },
        InstallState::MovingOld => match event {
            InstallEvent::OldMoved(Err(x)) => failed(
                concat3("failed to stage old bundle ", paths.dir.as_str(), ": ").concat(x.as_str()),
            ),
            InstallEvent::OldMoved(Ok(())) => (InstallState::Publishing(true), InstallAction::Publish),
            _ => (InstallState::MovingOld, InstallAction::MoveOld),
        },
        InstallState::Publishing(had_existing) => match event {
            InstallEvent::Published(Err(x)) => (
                InstallState::RollingBack(
                    had_existing,
                    concat3("failed to publish ", paths.dir.as_str(), ": ").concat(x.as_str()),
                ),
                InstallAction::RollBack(had_existing),
            ),
            InstallEvent::Published(Ok(())) => if had_existing {
                (InstallState::RemovingBackup, InstallAction::RemoveBackup)
            } else {
                (InstallState::Finished(Ok(true)), InstallAction::Finish(Ok(true)))
            },
            _ => (InstallState::Publishing(had_existing), InstallAction::Publish),
        },
        InstallState::RollingBack(restore, m) => match event {
            InstallEvent::RolledBack => failed(m),
            _ => (InstallState::RollingBack(restore, m), InstallAction::RollBack(restore)),
        },
        InstallState::RemovingBackup => match event {
            InstallEvent::BackupRemoved(Err(x)) => failed(
                concat3("failed to remove old bundle ", paths.backup.as_str(), ": ").concat(
                    x.as_str(),
                ),
            ),
            InstallEvent::BackupRemoved(Ok(())) => (
                InstallState::Finished(Ok(true)),
                InstallAction::Finish(Ok(true)),
            ),
            _ => (InstallState::RemovingBackup, InstallAction::RemoveBackup),
        },
        InstallState::Finished(result) => {
            let state = InstallState::Finished(result);
            let action = pending_action(bundle, &state);
            (state, action)
        },
    }
}

/// The state a run is in before its step `i`.
pub open spec fn state_before(steps: Seq<(StateView, ActionView)>, i: int) -> StateView {
    if i <= 0 {
        StateView::Start
    } else {
        steps[i - 1].0
    }
}

/// Whether `steps` are the states and actions that installing `b` goes
/// through when the driver answers with `events`, from the start.
pub open spec fn is_run(
    b: BundledSkill,
    p: PathsView,
    events: Seq<EventView>,
    steps: Seq<(StateView, ActionView)>,
) -> bool {
    &&& steps.len() == events.len()
    &&& forall|i: int|
        0 <= i < steps.len() ==> #[trigger] steps[i] == install_next(
            b,
            p,
            state_before(steps, i),
            events[i],
        )
}

/// Every step asks for the action that its new state waits on.
pub proof fn lemma_action_is_pending(b: BundledSkill, p: PathsView, s: StateView, e: EventView)
    ensures
        install_next(b, p, s, e).1 == pending(b, install_next(b, p, s, e).0),
{
}

proof fn lemma_invalid_step(b: BundledSkill, p: PathsView, events: Seq<EventView>, steps: Seq<(StateView, ActionView)>, i: int)
    requires
        is_run(b, p, events, steps),
        bundle_error(b) is Some,
        0 <= i < steps.len(),
    ensures
        steps[i] == fail(bundle_error(b)->0),
    decreases i,
{
    if i > 0 {
        lemma_invalid_step(b, p, events, steps, i - 1);
    }
    assert(steps[i] == install_next(b, p, state_before(steps, i), events[i]));
}

/// A bundle that fails validation is never touched: every step of its
/// installation stops with the validation error, whatever the driver says.
pub proof fn lemma_invalid_bundle_only_fails(
    b: BundledSkill,
    p: PathsView,
    events: Seq<EventView>,
    steps: Seq<(StateView, ActionView)>,
)
    requires
        is_run(b, p, events, steps),
        bundle_error(b) is Some,
    ensures
        forall|i: int| 0 <= i < steps.len() ==> #[trigger] steps[i] == fail(bundle_error(b)->0),
{
    assert forall|i: int| 0 <= i < steps.len() implies #[trigger] steps[i] == fail(bundle_error(b)->0) by {
        lemma_invalid_step(b, p, events, steps, i);
    }
}

/// After the old copy has been moved aside (at step `i`), either the run is
/// still publishing, or at some later step it asked to restore the old copy
/// or, having published, to remove the backup.
proof fn lemma_after_move(
    b: BundledSkill,
    p: PathsView,
    events: Seq<EventView>,
    steps: Seq<(StateView, ActionView)>,
    i: int,
    m: int,
)
    requires
        is_run(b, p, events, steps),
        0 <= i <= m < steps.len(),
        steps[i].0 == StateView::Publishing(true),
    ensures
        steps[m].0 == StateView::Publishing(true) || ((steps[m].0 matches StateView::RollingBack(
            true,
            _,
        ) || steps[m].0 == StateView::RemovingBackup || steps[m].0 is Finished) && exists|k: int|
            i < k <= m && (#[trigger] steps[k].1 == ActionView::RollBack(true) || steps[k].1
                == ActionView::RemoveBackup)),
    decreases m - i,
{
    if m > i {
        lemma_after_move(b, p, events, steps, i, m - 1);
        assert(steps[m] == install_next(b, p, state_before(steps, m), events[m]));
        lemma_action_is_pending(b, p, steps[m - 1].0, events[m]);
        if steps[m - 1].0 == StateView::Publishing(true) {
            if steps[m].0 != StateView::Publishing(true) {
                assert(steps[m].1 == ActionView::RollBack(true) || steps[m].1
                    == ActionView::RemoveBackup);
            }
        } else {
            let k = choose|k: int|
                i < k <= m - 1 && (#[trigger] steps[k].1 == ActionView::RollBack(true)
                    || steps[k].1 == ActionView::RemoveBackup);
            assert(i < k <= m);
        }
    }
}

/// A run that has moved the old copy aside (its state at step `i`) and later
/// stops with an error (at step `j`) has, in between, asked to move the old
/// copy back or, the new copy being published, to remove the backup: a
/// failed publish never leaves the bundle without either copy.
pub proof fn lemma_moved_copy_is_restored(
    b: BundledSkill,
    p: PathsView,
    events: Seq<EventView>,
    steps: Seq<(StateView, ActionView)>,
    i: int,
    j: int,
)
    requires
        is_run(b, p, events, steps),
        0 <= i < j < steps.len(),
        steps[i].0 == StateView::Publishing(true),
        steps[j].1 matches ActionView::Finish(Err(_)),
    ensures
        exists|k: int|
            i < k < j && (#[trigger] steps[k].1 == ActionView::RollBack(true) || steps[k].1
                == ActionView::RemoveBackup),
{
    lemma_after_move(b, p, events, steps, i, j);
    assert(steps[j] == install_next(b, p, state_before(steps, j), events[j]));
    lemma_action_is_pending(b, p, state_before(steps, j), events[j]);
    let k = choose|k: int|
        i < k <= j && (#[trigger] steps[k].1 == ActionView::RollBack(true) || steps[k].1
            == ActionView::RemoveBackup);
    assert(k != j);
}

/// Whether step `k` of a run accepted a recorded digest equal to the bundle's.
pub open spec fn accepted_digest(
    b: BundledSkill,
    events: Seq<EventView>,
    steps: Seq<(StateView, ActionView)>,
    k: int,
) -> bool {
    &&& state_before(steps, k) == StateView::ReadingDigest
    &&& events[k] matches EventView::DigestRead(Some(t))
    &&& trim(t) == digest_text(b)
}

/// Whether step `k` of a run accepted an exact materialized tree.
pub open spec fn accepted_tree(
    events: Seq<EventView>,
    steps: Seq<(StateView, ActionView)>,
    k: int,
) -> bool {
    &&& state_before(steps, k) == StateView::CheckingTree
    &&& events[k] == EventView::TreeChecked(true)
}

proof fn lemma_current_witness(
    b: BundledSkill,
    p: PathsView,
    events: Seq<EventView>,
    steps: Seq<(StateView, ActionView)>,
    m: int,
)
    requires
        is_run(b, p, events, steps),
        0 <= m < steps.len(),
    ensures
        steps[m].0 == StateView::CheckingTree ==> exists|k: int|
            0 <= k <= m && #[trigger] accepted_digest(b, events, steps, k),
        steps[m].0 == StateView::Finished(Ok(false)) ==> exists|k1: int, k2: int|
            0 <= k1 < k2 <= m && #[trigger] accepted_digest(b, events, steps, k1)
                && #[trigger] accepted_tree(events, steps, k2),
    decreases m,
{
    assert(steps[m] == install_next(b, p, state_before(steps, m), events[m]));
    if m > 0 {
        lemma_current_witness(b, p, events, steps, m - 1);
        let prev = steps[m - 1].0;
        if steps[m].0 == StateView::CheckingTree {
            if prev != StateView::CheckingTree {
                assert(accepted_digest(b, events, steps, m));
            }
        }
        if steps[m].0 == StateView::Finished(Ok(false)) {
            if prev != StateView::Finished(Ok(false)) {
                assert(prev == StateView::CheckingTree);
                assert(accepted_tree(events, steps, m));
                let k1 = choose|k: int| 0 <= k <= m - 1 && #[trigger] accepted_digest(b, events, steps, k);
                assert(accepted_digest(b, events, steps, k1) && accepted_tree(events, steps, m));
            }
        }
    } else {
        if steps[m].0 == StateView::CheckingTree {
            assert(false);
        }
    }
}

/// A bundle is reported unchanged (`Ok(false)`) only after the run accepted
/// a recorded digest equal to the bundle's own and, later, an exact tree.
pub proof fn lemma_unchanged_means_current(
    b: BundledSkill,
    p: PathsView,
    events: Seq<EventView>,
    steps: Seq<(StateView, ActionView)>,
    j: int,
)
    requires
        is_run(b, p, events, steps),
        0 <= j < steps.len(),
        steps[j].1 == ActionView::Finish(Ok(false)),
    ensures
        exists|k1: int, k2: int|
            0 <= k1 < k2 <= j && #[trigger] accepted_digest(b, events, steps, k1)
                && #[trigger] accepted_tree(events, steps, k2),
{
    assert(steps[j] == install_next(b, p, state_before(steps, j), events[j]));
    lemma_action_is_pending(b, p, state_before(steps, j), events[j]);
    lemma_current_witness(b, p, events, steps, j);
}

/// Whether step `k` of a run accepted a successful publish.
pub open spec fn accepted_publish(
    events: Seq<EventView>,
    steps: Seq<(StateView, ActionView)>,
    k: int,
) -> bool {
    &&& state_before(steps, k) is Publishing
    &&& events[k] matches EventView::Published(Ok(_))
}

proof fn lemma_written_witness(
    b: BundledSkill,
    p: PathsView,
    events: Seq<EventView>,
    steps: Seq<(StateView, ActionView)>,
    m: int,
)
    requires
        is_run(b, p, events, steps),
        0 <= m < steps.len(),
    ensures
        steps[m].0 == StateView::RemovingBackup || steps[m].0 == StateView::Finished(Ok(true))
            ==> exists|k: int| 0 <= k <= m && #[trigger] accepted_publish(events, steps, k),
    decreases m,
{
    assert(steps[m] == install_next(b, p, state_before(steps, m), events[m]));
    if m > 0 {
        lemma_written_witness(b, p, events, steps, m - 1);
        let prev = steps[m - 1].0;
        if steps[m].0 == StateView::RemovingBackup || steps[m].0 == StateView::Finished(Ok(true)) {
            if prev != StateView::RemovingBackup && prev != StateView::Finished(Ok(true)) {
                assert(accepted_publish(events, steps, m));
            }
        }
    }
}

/// A bundle is reported written (`Ok(true)`) only after the run accepted a
/// successful publish of the staged tree.
pub proof fn lemma_written_means_published(
    b: BundledSkill,
    p: PathsView,
    events: Seq<EventView>,
    steps: Seq<(StateView, ActionView)>,
    j: int,
)
    requires
        is_run(b, p, events, steps),
        0 <= j < steps.len(),
        steps[j].1 == ActionView::Finish(Ok(true)),
    ensures
        exists|k: int| 0 <= k <= j && #[trigger] accepted_publish(events, steps, k),
{
    assert(steps[j] == install_next(b, p, state_before(steps, j), events[j]));
    lemma_action_is_pending(b, p, state_before(steps, j), events[j]);
    lemma_written_witness(b, p, events, steps, j);
}

/// Installing over a copy whose recorded digest is the bundle's own decides
/// on the tree alone: when the driver finds the tree exact the run stops
/// with `Ok(false)` and writes nothing, and when it finds the tree changed
/// (a tampered or extra file) the run stages the bundle afresh.
pub proof fn lemma_current_copy_is_left_alone(
    b: BundledSkill,
    p: PathsView,
    recorded: Seq<char>,
    exact: bool,
    events: Seq<EventView>,
    steps: Seq<(StateView, ActionView)>,
)
    requires
        bundle_error(b) is None,
        trim(recorded) == digest_text(b),
        events == seq![
            EventView::Begin,
            EventView::RootCreated(Ok(())),
            EventView::RootInspected(Ok((true, false))),
            EventView::DigestRead(Some(recorded)),
            EventView::TreeChecked(exact),
        ],
        is_run(b, p, events, steps),
    ensures
        steps[3].1 == ActionView::CheckTree,
        exact ==> steps[4].1 == ActionView::Finish(Ok(false)),
        !exact ==> steps[4].1 == ActionView::Stage(digest_text(b)),
{
    assert(steps[0] == install_next(b, p, state_before(steps, 0), events[0]));
    assert(steps[1] == install_next(b, p, state_before(steps, 1), events[1]));
    assert(steps[2] == install_next(b, p, state_before(steps, 2), events[2]));
    assert(steps[3] == install_next(b, p, state_before(steps, 3), events[3]));
    assert(steps[4] == install_next(b, p, state_before(steps, 4), events[4]));
}

} // verus!
