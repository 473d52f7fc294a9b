//! Reading one bundled resource, as a state machine: the filesystem driver
//! performs each requested action and answers with what happened.
//!
//! The relative path is checked before anything is touched; the skill root is
//! canonicalized, the resource inspected without following symlinks, then
//! canonicalized itself, and read only when it lies within the root.

use vstd::prelude::*;
use crate::model::MAX_RESOURCE_BYTES;
use crate::resource::{
    check_resource_metadata, check_resource_path, decode_resource, msg_not_file, msg_symlink,
    msg_too_large, path_within, resource_path_error, utf8_error_text, within,
};
use crate::text::{concat3, copy_string};

verus! {

broadcast use vstd::string::group_string_axioms;

/// What reading a resource starts from, as text.
#[derive(Debug)]
pub struct ReadRequest {
    /// The skill's display name.
    pub skill_name: String,
    /// The requested path, relative to the skill root.
    pub relative: String,
    /// The skill root (the directory of the skill's document), if the skill
    /// has one on disk.
    pub root: Option<String>,
}

/// [`ReadRequest`] as text.
pub struct RequestView {
    pub skill_name: Seq<char>,
    pub relative: Seq<char>,
    pub root: Option<Seq<char>>,
}

impl View for ReadRequest {
    type V = RequestView;

    open spec fn view(&self) -> RequestView {
        RequestView {
            skill_name: self.skill_name@,
            relative: self.relative@,
            root: match self.root {
                Some(r) => Some(r@),
                None => None,
            },
        }
    }
}

/// What the driver reports back; errors carry the error's text.
#[derive(Debug)]
pub enum ReadEvent {
    /// Start reading.
    Begin,
    /// The skill root was canonicalized to this path.
    RootCanonicalized(Result<String, String>),
    /// The requested path (the canonical root joined with the relative path)
    /// was inspected without following symlinks: for each of its components
    /// below the root, from the first to the requested path itself, whether
    /// that prefix is a symlink; whether the requested path is a regular
    /// file; and its length.
    Inspected(String, Result<(Vec<bool>, bool, u64), String>),
    /// The requested path was canonicalized to this path.
    FileCanonicalized(Result<String, String>),
    /// The file's bytes were read.
    BytesRead(Result<Vec<u8>, String>),
}

/// [`ReadEvent`] as text.
pub enum ReadEventView {
    Begin,
    RootCanonicalized(Result<Seq<char>, Seq<char>>),
    Inspected(Seq<char>, Result<(Seq<bool>, bool, u64), Seq<char>>),
    FileCanonicalized(Result<Seq<char>, Seq<char>>),
    BytesRead(Result<Seq<u8>, Seq<char>>),
}

/// The text of a result of strings.
pub open spec fn text_result(r: Result<String, String>) -> Result<Seq<char>, Seq<char>> {
    match r {
        Ok(t) => Ok(t@),
        Err(e) => Err(e@),
    }
}

impl View for ReadEvent {
    type V = ReadEventView;

    open spec fn view(&self) -> ReadEventView {
        match self {
            ReadEvent::Begin => ReadEventView::Begin,
            ReadEvent::RootCanonicalized(r) => ReadEventView::RootCanonicalized(text_result(*r)),
            ReadEvent::Inspected(p, r) => ReadEventView::Inspected(
                p@,
                match r {
                    Ok((links, is_file, len)) => Ok((links@, *is_file, *len)),
                    Err(e) => Err(e@),
                },
            ),
            ReadEvent::FileCanonicalized(r) => ReadEventView::FileCanonicalized(text_result(*r)),
            ReadEvent::BytesRead(r) => ReadEventView::BytesRead(
                match r {
                    Ok(b) => Ok(b@),
                    Err(e) => Err(e@),
                },
            ),
        }
    }
}

/// Where reading a resource stands.
#[derive(Debug)]
pub enum ReadState {
    /// Nothing done yet.
    Start,
    /// Waiting for the root to be canonicalized.
    CanonicalizingRoot,
    /// Waiting for the requested path to be inspected; the canonical root.
    Inspecting(String),
    /// Waiting for the requested path to be canonicalized; the canonical
    /// root and the requested path.
    CanonicalizingFile(String, String),
    /// Waiting for the bytes of this canonical path.
    Reading(String),
    /// Done, with the text read or the error.
    Finished(Result<String, String>),
}

/// [`ReadState`] as text.
pub enum ReadStateView {
    Start,
    CanonicalizingRoot,
    Inspecting(Seq<char>),
    CanonicalizingFile(Seq<char>, Seq<char>),
    Reading(Seq<char>),
    Finished(Result<Seq<char>, Seq<char>>),
}

impl View for ReadState {
    type V = ReadStateView;

    open spec fn view(&self) -> ReadStateView {
        match self {
            ReadState::Start => ReadStateView::Start,
            ReadState::CanonicalizingRoot => ReadStateView::CanonicalizingRoot,
            ReadState::Inspecting(root) => ReadStateView::Inspecting(root@),
            ReadState::CanonicalizingFile(root, requested) => ReadStateView::CanonicalizingFile(
                root@,
                requested@,
            ),
            ReadState::Reading(file) => ReadStateView::Reading(file@),
            ReadState::Finished(r) => ReadStateView::Finished(text_result(*r)),
        }
    }
}

/// What the driver is asked to do next.
#[derive(Debug)]
pub enum ReadAction {
    /// Canonicalize the skill root.
    CanonicalizeRoot,
    /// Inspect the relative path joined to this canonical root.
    Inspect(String),
    /// Canonicalize the inspected path.
    CanonicalizeFile,
    /// Read the bytes of this canonical path.
    ReadBytes(String),
    /// Stop with this result.
    Finish(Result<String, String>),
}

/// [`ReadAction`] as text.
pub enum ReadActionView {
    CanonicalizeRoot,
    Inspect(Seq<char>),
    CanonicalizeFile,
    ReadBytes(Seq<char>),
    Finish(Result<Seq<char>, Seq<char>>),
}

impl View for ReadAction {
    type V = ReadActionView;

    open spec fn view(&self) -> ReadActionView {
        match self {
            ReadAction::CanonicalizeRoot => ReadActionView::CanonicalizeRoot,
            ReadAction::Inspect(root) => ReadActionView::Inspect(root@),
            ReadAction::CanonicalizeFile => ReadActionView::CanonicalizeFile,
            ReadAction::ReadBytes(file) => ReadActionView::ReadBytes(file@),
            ReadAction::Finish(r) => ReadActionView::Finish(text_result(*r)),
        }
    }
}

/// Whether any component of the requested path is a symlink.
pub open spec fn any_link(links: Seq<bool>) -> bool {
    exists|k: int| 0 <= k < links.len() && #[trigger] links[k]
}

fn has_link(links: &Vec<bool>) -> (r: bool)
    ensures
        r == any_link(links@),
{
    let mut i: usize = 0;
    while i < links.len()
        invariant
            i <= links@.len(),
            forall|k: int| 0 <= k < i ==> !#[trigger] links@[k],
        decreases links@.len() - i,
    {
        if links[i] {
            return true;
        }
        i += 1;
    }
    false
}

/// Why the filesystem's account of a resource refuses it, if it does.
pub open spec fn metadata_error(is_symlink: bool, is_file: bool, len: u64) -> Option<Seq<char>> {
    if is_symlink {
        Some(msg_symlink())
    } else if !is_file {
        Some(msg_not_file())
    } else if len > MAX_RESOURCE_BYTES {
        Some(msg_too_large(len as nat))
    } else {
        None
    }
}

/// The text of a resource's bytes, or why they are not text.
pub open spec fn decoded(bytes: Seq<u8>) -> Result<Seq<char>, Seq<char>> {
    if vstd::utf8::valid_utf8(bytes) {
        Ok(vstd::utf8::decode_utf8(bytes))
    } else {
        Err("resource is not valid UTF-8 text: "@ + utf8_error_text(bytes))
    }
}

/// The action that a state waits on.
pub open spec fn read_pending(s: ReadStateView) -> ReadActionView {
    match s {
        ReadStateView::Start => ReadActionView::CanonicalizeRoot,
        ReadStateView::CanonicalizingRoot => ReadActionView::CanonicalizeRoot,
        ReadStateView::Inspecting(root) => ReadActionView::Inspect(root),
        ReadStateView::CanonicalizingFile(_, _) => ReadActionView::CanonicalizeFile,
        ReadStateView::Reading(file) => ReadActionView::ReadBytes(file),
        ReadStateView::Finished(r) => ReadActionView::Finish(r),
    }
}

/// Stop with an error.
pub open spec fn read_fail(m: Seq<char>) -> (ReadStateView, ReadActionView) {
    (ReadStateView::Finished(Err(m)), ReadActionView::Finish(Err(m)))
}

/// One step of reading a resource: from state `s` and the driver's answer
/// `e`, the next state and action. An answer that does not belong to the
/// state leaves it unchanged and asks the pending action again.
pub open spec fn read_next(q: RequestView, s: ReadStateView, e: ReadEventView) -> (
    ReadStateView,
    ReadActionView,
) {
    let stay = (s, read_pending(s));
    match s {
        ReadStateView::Start => match resource_path_error(q.relative) {
            Some(m) => read_fail(m),
            None => match q.root {
                None => read_fail("skill '"@ + q.skill_name + "' has no on-disk location"@),
                Some(_) => (ReadStateView::CanonicalizingRoot, ReadActionView::CanonicalizeRoot),
            },
        },
        ReadStateView::CanonicalizingRoot => match e {
            ReadEventView::RootCanonicalized(Err(x)) => read_fail(
                "failed to canonicalize skill root "@ + q.root.unwrap_or(seq![]) + ": "@ + x,
            ),
            ReadEventView::RootCanonicalized(Ok(root)) => (
                ReadStateView::Inspecting(root),
                ReadActionView::Inspect(root),
            ),
            _ => stay,
        },
        ReadStateView::Inspecting(root) => match e {
            ReadEventView::Inspected(requested, Err(x)) => read_fail(
                "failed to stat resource "@ + requested + ": "@ + x,
            ),
            ReadEventView::Inspected(requested, Ok((links, is_file, len))) => match metadata_error(
                any_link(links),
                is_file,
                len,
            ) {
                Some(m) => read_fail(m),
                None => (
                    ReadStateView::CanonicalizingFile(root, requested),
                    ReadActionView::CanonicalizeFile,
                ),
            },
            _ => stay,
        },
        ReadStateView::CanonicalizingFile(root, requested) => match e {
            ReadEventView::FileCanonicalized(Err(x)) => read_fail(
                "failed to canonicalize resource "@ + requested + ": "@ + x,
            ),
            ReadEventView::FileCanonicalized(Ok(file)) => if within(root, file) {
                (ReadStateView::Reading(file), ReadActionView::ReadBytes(file))
            } else {
                read_fail("resource path escapes skill root: "@ + file)
            },
            _ => stay,
        },
        ReadStateView::Reading(file) => match e {
            ReadEventView::BytesRead(Err(x)) => read_fail(
                "failed to read resource "@ + file + ": "@ + x,
            ),
            ReadEventView::BytesRead(Ok(bytes)) => (
                ReadStateView::Finished(decoded(bytes)),
                ReadActionView::Finish(decoded(bytes)),
            ),
            _ => stay,
        },
        ReadStateView::Finished(_) => stay,
    }
}

fn copy_result(r: &Result<String, String>) -> (c: Result<String, String>)
    ensures
        text_result(c) == text_result(*r),
{
    match r {
        Ok(t) => Ok(copy_string(t)),
        Err(e) => Err(copy_string(e)),
    }
}

fn read_failed(m: String) -> (r: (ReadState, ReadAction))
    ensures
        (r.0@, r.1@) == read_fail(m@),
{
    let again = copy_string(&m);
    (ReadState::Finished(Err(m)), ReadAction::Finish(Err(again)))
}

fn finished(result: Result<String, String>) -> (r: (ReadState, ReadAction))
    ensures
        r.0@ == ReadStateView::Finished(text_result(result)),
        r.1@ == ReadActionView::Finish(text_result(result)),
{
    let again = copy_result(&result);
    (ReadState::Finished(result), ReadAction::Finish(again))
}

/// Advance reading a resource by one step: given the state and the driver's
/// answer to the last action, the next state and action.
pub fn read_step(request: &ReadRequest, state: ReadState, event: ReadEvent) -> (r: (
    ReadState,
    ReadAction,
))
    ensures
        (r.0@, r.1@) == read_next(request@, state@, event@),
{
    match state {
        ReadState::Start => {
            if let Err(m) = check_resource_path(request.relative.as_str()) {
                return read_failed(m);
            }
            match &request.root {
                None => read_failed(
                    concat3("skill '", request.skill_name.as_str(), "' has no on-disk location"),
                ),
                Some(_) => (ReadState::CanonicalizingRoot, ReadAction::CanonicalizeRoot),
            }
        },
        ReadState::CanonicalizingRoot => match event {
            ReadEvent::RootCanonicalized(Err(x)) => {
                let shown = match &request.root {
                    Some(root) => copy_string(root),
                    None => String::new(),
                };
                proof {
                    assert(shown@ == request@.root.unwrap_or(seq![]));
                }
                read_failed(
                    concat3("failed to canonicalize skill root ", shown.as_str(), ": ").concat(
                        x.as_str(),
                    ),
                )
            },
            ReadEvent::RootCanonicalized(Ok(root)) => {
                let again = copy_string(&root);
                (ReadState::Inspecting(root), ReadAction::Inspect(again))
            },
            _ => (ReadState::CanonicalizingRoot, ReadAction::CanonicalizeRoot),
        },
        ReadState::Inspecting(root) => match event {
            ReadEvent::Inspected(requested, Err(x)) => read_failed(
                concat3("failed to stat resource ", requested.as_str(), ": ").concat(x.as_str()),
            ),
            ReadEvent::Inspected(requested, Ok((links, is_file, len))) => {
                match check_resource_metadata(has_link(&links), is_file, len) {
                    Err(m) => read_failed(m),
                    Ok(()) => (
                        ReadState::CanonicalizingFile(root, requested),
                        ReadAction::CanonicalizeFile,
                    ),
                }
            },
            _ => {
                let again = copy_string(&root);
                (ReadState::Inspecting(root), ReadAction::Inspect(again))
            },
        },
        ReadState::CanonicalizingFile(root, requested) => match event {
            ReadEvent::FileCanonicalized(Err(x)) => read_failed(
                concat3("failed to canonicalize resource ", requested.as_str(), ": ").concat(
                    x.as_str(),
                ),
            ),
            ReadEvent::FileCanonicalized(Ok(file)) => if path_within(root.as_str(), file.as_str()) {
                let again = copy_string(&file);
                (ReadState::Reading(file), ReadAction::ReadBytes(again))
            } else {
                let mut m = String::from_str("resource path escapes skill root: ");
                m.append(file.as_str());
                read_failed(m)
            },
            _ => (ReadState::CanonicalizingFile(root, requested), ReadAction::CanonicalizeFile),
        },
        ReadState::Reading(file) => match event {
            ReadEvent::BytesRead(Err(x)) => read_failed(
                concat3("failed to read resource ", file.as_str(), ": ").concat(x.as_str()),
            ),
            ReadEvent::BytesRead(Ok(bytes)) => finished(decode_resource(bytes.as_slice())),
            _ => {
                let again = copy_string(&file);
                (ReadState::Reading(file), ReadAction::ReadBytes(again))
            },
        },
        ReadState::Finished(result) => finished(result),
    }
}

/// The state a run is in before its step `i`.
pub open spec fn read_state_before(steps: Seq<(ReadStateView, ReadActionView)>, i: int) -> ReadStateView {
    if i <= 0 {
        ReadStateView::Start
    } else {
        steps[i - 1].0
    }
}

/// Whether `steps` are the states and actions that reading `q` goes through
/// when the driver answers with `events`, from the start.
pub open spec fn is_read_run(
    q: RequestView,
    events: Seq<ReadEventView>,
    steps: Seq<(ReadStateView, ReadActionView)>,
) -> bool {
    &&& steps.len() == events.len()
    &&& forall|i: int|
        0 <= i < steps.len() ==> #[trigger] steps[i] == read_next(
            q,
            read_state_before(steps, i),
            events[i],
        )
}

/// Every step asks for the action that its new state waits on.
pub proof fn lemma_read_action_is_pending(q: RequestView, s: ReadStateView, e: ReadEventView)
    ensures
        read_next(q, s, e).1 == read_pending(read_next(q, s, e).0),
{
}

proof fn lemma_unsafe_step(
    q: RequestView,
    events: Seq<ReadEventView>,
    steps: Seq<(ReadStateView, ReadActionView)>,
    i: int,
)
    requires
        is_read_run(q, events, steps),
        resource_path_error(q.relative) is Some,
        0 <= i < steps.len(),
    ensures
        steps[i] == read_fail(resource_path_error(q.relative)->0),
    decreases i,
{
    if i > 0 {
        lemma_unsafe_step(q, events, steps, i - 1);
    }
    assert(steps[i] == read_next(q, read_state_before(steps, i), events[i]));
}

/// A request whose relative path is unsafe touches nothing: every step stops
/// with the path's error, whatever the driver says.
pub proof fn lemma_unsafe_path_touches_nothing(
    q: RequestView,
    events: Seq<ReadEventView>,
    steps: Seq<(ReadStateView, ReadActionView)>,
)
    requires
        is_read_run(q, events, steps),
        resource_path_error(q.relative) is Some,
    ensures
        forall|i: int|
            0 <= i < steps.len() ==> #[trigger] steps[i] == read_fail(
                resource_path_error(q.relative)->0,
            ),
{
    assert forall|i: int| 0 <= i < steps.len() implies #[trigger] steps[i] == read_fail(
        resource_path_error(q.relative)->0,
    ) by {
        lemma_unsafe_step(q, events, steps, i);
    }
}

/// Whether step `i` of a run accepted a canonical root.
pub open spec fn root_accepted(
    events: Seq<ReadEventView>,
    steps: Seq<(ReadStateView, ReadActionView)>,
    i: int,
) -> bool {
    &&& read_state_before(steps, i) == ReadStateView::CanonicalizingRoot
    &&& events[i] matches ReadEventView::RootCanonicalized(Ok(_))
}

/// The canonical root that the driver reported at step `i`.
pub open spec fn root_at(events: Seq<ReadEventView>, i: int) -> Seq<char> {
    match events[i] {
        ReadEventView::RootCanonicalized(Ok(root)) => root,
        _ => seq![],
    }
}

/// Whether step `j` of a run accepted what the filesystem reported of the
/// requested path: no component a symlink, a regular file, within the size
/// limit.
pub open spec fn metadata_accepted(
    events: Seq<ReadEventView>,
    steps: Seq<(ReadStateView, ReadActionView)>,
    j: int,
) -> bool {
    &&& read_state_before(steps, j) is Inspecting
    &&& events[j] matches ReadEventView::Inspected(_, Ok((links, is_file, len)))
    &&& !any_link(links)
    &&& metadata_error(false, is_file, len) is None
}

/// Whether step `l` of a run accepted a canonical path for the resource.
pub open spec fn file_accepted(
    events: Seq<ReadEventView>,
    steps: Seq<(ReadStateView, ReadActionView)>,
    l: int,
) -> bool {
    &&& read_state_before(steps, l) is CanonicalizingFile
    &&& events[l] matches ReadEventView::FileCanonicalized(Ok(_))
}

/// The canonical path that the driver reported at step `l`.
pub open spec fn file_at(events: Seq<ReadEventView>, l: int) -> Seq<char> {
    match events[l] {
        ReadEventView::FileCanonicalized(Ok(file)) => file,
        _ => seq![],
    }
}

proof fn lemma_read_witness(
    q: RequestView,
    events: Seq<ReadEventView>,
    steps: Seq<(ReadStateView, ReadActionView)>,
    m: int,
)
    requires
        is_read_run(q, events, steps),
        0 <= m < steps.len(),
    ensures
        steps[m].0 matches ReadStateView::Inspecting(root) ==> exists|i: int|
            0 <= i <= m && #[trigger] root_accepted(events, steps, i) && root_at(events, i) == root,
        steps[m].0 matches ReadStateView::CanonicalizingFile(root, _) ==> exists|i: int, j: int|
            0 <= i < j <= m && #[trigger] root_accepted(events, steps, i) && root_at(events, i)
                == root && #[trigger] metadata_accepted(events, steps, j),
        steps[m].0 matches ReadStateView::Reading(file) ==> exists|i: int, j: int, l: int|
            0 <= i < j < l <= m && #[trigger] root_accepted(events, steps, i)
                && #[trigger] metadata_accepted(events, steps, j) && #[trigger] file_accepted(
                events,
                steps,
                l,
            ) && file_at(events, l) == file && within(root_at(events, i), file),
    decreases m,
{
    assert(steps[m] == read_next(q, read_state_before(steps, m), events[m]));
    if m == 0 {
        return;
    }
    lemma_read_witness(q, events, steps, m - 1);
    let prev = steps[m - 1].0;
    assert(read_state_before(steps, m) == prev);
    match steps[m].0 {
        ReadStateView::Inspecting(root) => {
            if !(prev is Inspecting) {
                assert(root_accepted(events, steps, m) && root_at(events, m) == root);
            }
        },
        ReadStateView::CanonicalizingFile(root, _) => {
            if !(prev is CanonicalizingFile) {
                assert(prev == ReadStateView::Inspecting(root));
                let i = choose|i: int|
                    0 <= i <= m - 1 && #[trigger] root_accepted(events, steps, i) && root_at(events, i)
                        == root;
                assert(metadata_accepted(events, steps, m));
                assert(root_accepted(events, steps, i) && metadata_accepted(events, steps, m));
            }
        },
        ReadStateView::Reading(file) => {
            if !(prev is Reading) {
                let (root, requested) = match prev {
                    ReadStateView::CanonicalizingFile(root, requested) => (root, requested),
                    _ => (seq![], seq![]),
                };
                assert(prev == ReadStateView::CanonicalizingFile(root, requested));
                let (i, j) = choose|i: int, j: int|
                    0 <= i < j <= m - 1 && #[trigger] root_accepted(events, steps, i) && root_at(
                        events,
                        i,
                    ) == root && #[trigger] metadata_accepted(events, steps, j);
                assert(file_accepted(events, steps, m) && file_at(events, m) == file);
                assert(root_accepted(events, steps, i) && metadata_accepted(events, steps, j)
                    && file_accepted(events, steps, m));
            }
        },
        _ => {},
    }
}

/// A resource is read only inside its skill: a run asks to read `file` only
/// after the driver reported a canonical root, then a requested path that is
/// a regular file within the size limit with no component below the root a
/// symlink (so no symlink is followed), then `file` as that
/// path's canonical form, and `file` lies within the canonical root.
pub proof fn lemma_reads_stay_inside(
    q: RequestView,
    events: Seq<ReadEventView>,
    steps: Seq<(ReadStateView, ReadActionView)>,
    k: int,
    file: Seq<char>,
)
    requires
        is_read_run(q, events, steps),
        0 <= k < steps.len(),
        steps[k].1 == ReadActionView::ReadBytes(file),
    ensures
        exists|i: int, j: int, l: int|
            0 <= i < j < l <= k && #[trigger] root_accepted(events, steps, i)
                && #[trigger] metadata_accepted(events, steps, j) && #[trigger] file_accepted(
                events,
                steps,
                l,
            ) && file_at(events, l) == file && within(root_at(events, i), file),
{
    assert(steps[k] == read_next(q, read_state_before(steps, k), events[k]));
    lemma_read_action_is_pending(q, read_state_before(steps, k), events[k]);
    assert(steps[k].0 == ReadStateView::Reading(file));
    lemma_read_witness(q, events, steps, k);
}

} // verus!
