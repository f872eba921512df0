//! The datanode's chunk persistence: where a chunk lies on disk, and the
//! protocol by which a PUT becomes a stored chunk.
//!
//! A chunk is written to a temporary file beside its final place, forced to
//! disk, and renamed into place; the rename is the one point of commit. The
//! file system calls are made by the caller: each `PutAction` names the next
//! call, and each `PutEvent` reports how it went.

use crate::status::BAD_REQUEST;
use crate::status::CONFLICT;
use crate::status::CREATED;
use crate::status::INSUFFICIENT_STORAGE;
use crate::status::INTERNAL_SERVER_ERROR;
use crate::status::NOT_FOUND;
use crate::status::NO_CONTENT;
use crate::status::OK;
use crate::status::PAYLOAD_TOO_LARGE;
use vstd::prelude::*;
use vstd::string::StrSliceExecFns;
use vstd::string::StringExecFns;

verus! {

/// The fewest characters a chunk identifier may have.
pub const MIN_CHUNK_ID_LEN: usize = 8;

/// The most bytes a stored chunk may hold: 64 MiB.
pub const MAX_CHUNK_SIZE: u64 = 67_108_864;

/// The operating system's error number for a device without space left.
pub const ENOSPC: i32 = 28;

/// Where the chunk `chunk_id` lies under the storage root `base`:
/// `base/chunks/ab/cd/id`, where `ab` and `cd` are the first and the second
/// pair of characters of the identifier.
pub open spec fn chunk_path_of(base: Seq<char>, chunk_id: Seq<char>) -> Seq<char>
    recommends
        chunk_id.len() >= 4,
{
    base + "/chunks/"@ + chunk_id.subrange(0, 2) + "/"@ + chunk_id.subrange(2, 4) + "/"@
        + chunk_id
}

/// Where a chunk is written before it is committed: its final path with
/// `.tmp` behind it.
pub open spec fn temp_path_of(path: Seq<char>) -> Seq<char> {
    path + ".tmp"@
}

/// Whether a chunk identifier is long enough to be stored.
pub fn valid_chunk_id(chunk_id: &str) -> (valid: bool)
    ensures
        valid == (chunk_id@.len() >= MIN_CHUNK_ID_LEN),
{
    chunk_id.unicode_len() >= MIN_CHUNK_ID_LEN
}

/// The path of a chunk under the storage root. Two levels of directories,
/// named by the first four characters of the identifier, keep any one
/// directory small. The identifier must have at least four characters.
pub fn get_chunk_path(base: &str, chunk_id: &str) -> (path: String)
    requires
        chunk_id@.len() >= 4,
    ensures
        path@ == chunk_path_of(base@, chunk_id@),
{
    let p1 = chunk_id.substring_char(0, 2);
    let p2 = chunk_id.substring_char(2, 4);
    let mut path = String::from_str(base);
    path.append("/chunks/");
    path.append(p1);
    path.append("/");
    path.append(p2);
    path.append("/");
    path.append(chunk_id);
    path
}

/// The path of the temporary file for a chunk whose final path is `path`.
pub fn temp_path(path: &str) -> (temp: String)
    ensures
        temp@ == temp_path_of(path@),
{
    let mut temp = String::from_str(path);
    temp.append(".tmp");
    temp
}

/// Why a write failed.
#[derive(Clone, Copy, PartialEq, Eq, Structural, Debug)]
pub enum WriteFailure {
    /// The device has no space left.
    DiskFull,
    /// Anything else.
    Other,
}

/// Tells a full disk from other failures by the operating system's error
/// number, where the failure carries one.
pub fn classify_write_failure(raw_os_error: Option<i32>) -> (failure: WriteFailure)
    ensures
        failure == if raw_os_error == Some(ENOSPC) {
            WriteFailure::DiskFull
        } else {
            WriteFailure::Other
        },
{
    match raw_os_error {
        Some(code) => {
            if code == ENOSPC {
                WriteFailure::DiskFull
            } else {
                WriteFailure::Other
            }
        },
        None => WriteFailure::Other,
    }
}

/// How far a PUT has come.
#[derive(Clone, Copy, PartialEq, Eq, Structural, Debug)]
pub enum Stage {
    /// Asked whether the chunk is stored already.
    CheckingTarget,
    /// Creating the chunk's directory.
    CreatingDir,
    /// Creating the temporary file.
    CreatingTemp,
    /// Waiting for the next fragment of the body.
    Receiving,
    /// Writing a fragment to the temporary file.
    Writing,
    /// Forcing the temporary file to disk.
    Syncing,
    /// Renaming the temporary file into place.
    Renaming,
    /// Answered with this status.
    Done(u16),
}

/// How the last call went.
#[derive(Clone, Copy, PartialEq, Eq, Structural, Debug)]
pub enum PutEvent {
    /// The final path exists: the chunk is stored already.
    TargetExists,
    /// The final path does not exist.
    TargetAbsent,
    /// The chunk's directory is there.
    DirReady,
    /// The chunk's directory could not be created.
    DirFailed,
    /// The temporary file is there, and empty.
    TempCreated,
    /// The temporary file could not be created.
    TempFailed,
    /// The body yielded a fragment of this many bytes.
    Fragment(usize),
    /// The body has been read to its end.
    BodyEnded,
    /// Reading the body failed.
    BodyFailed,
    /// The fragment is in the temporary file.
    Written,
    /// Writing the fragment failed.
    WriteFailed(WriteFailure),
    /// The temporary file is on disk.
    Synced,
    /// Forcing the temporary file to disk failed.
    SyncFailed,
    /// The temporary file has become the final file.
    Renamed,
    /// The rename failed.
    RenameFailed,
}

/// The call to make next.
#[derive(Clone, Copy, PartialEq, Eq, Structural, Debug)]
pub enum PutAction {
    /// Ask whether the final path exists.
    CheckTarget,
    /// Create the directory of the final path, with its parents.
    CreateDir,
    /// Create the temporary file.
    CreateTemp,
    /// Read the next fragment of the body.
    ReadBody,
    /// Write the fragment just read to the temporary file.
    Write,
    /// Force the temporary file to disk.
    Sync,
    /// Rename the temporary file to the final path.
    Rename,
    /// Delete the temporary file, then answer with this status.
    Discard(u16),
    /// Answer with this status.
    Reply(u16),
}

/// A PUT under way: its stage and the bytes accepted for writing so far.
#[derive(Clone, Copy, PartialEq, Eq, Structural, Debug)]
pub struct PutChunk {
    pub stage: Stage,
    pub written: u64,
}

/// The PUT that has just asked whether its chunk is stored already.
pub open spec fn put_start() -> PutChunk {
    PutChunk { stage: Stage::CheckingTarget, written: 0 }
}

impl PutChunk {
    /// This PUT, answered with `status`.
    pub open spec fn done(self, status: u16) -> PutChunk {
        PutChunk { stage: Stage::Done(status), written: self.written }
    }

    /// This PUT at another stage.
    pub open spec fn at(self, stage: Stage) -> PutChunk {
        PutChunk { stage, written: self.written }
    }

    /// The PUT after `event`, and the call to make next.
    ///
    /// A chunk that is stored already is refused as a conflict and nothing
    /// is touched. A fragment that would take the chunk beyond
    /// `MAX_CHUNK_SIZE` ends the PUT as too large; a failed write ends it as
    /// insufficient storage where the disk is full and as a server error
    /// otherwise; so does a body that fails. In each of these cases the
    /// temporary file is deleted. The rename is asked for only after the
    /// file has been forced to disk, and success is answered only after the
    /// rename. Any other failure, and any report that does not fit the
    /// stage, ends the PUT as a server error. An answered PUT stays answered.
    pub open spec fn next(self, event: PutEvent) -> (PutChunk, PutAction) {
        match (self.stage, event) {
            (Stage::Done(status), _) => (self, PutAction::Reply(status)),
            (Stage::CheckingTarget, PutEvent::TargetExists) => (
                self.done(CONFLICT),
                PutAction::Reply(CONFLICT),
            ),
            (Stage::CheckingTarget, PutEvent::TargetAbsent) => (
                self.at(Stage::CreatingDir),
                PutAction::CreateDir,
            ),
            (Stage::CreatingDir, PutEvent::DirReady) => (
                self.at(Stage::CreatingTemp),
                PutAction::CreateTemp,
            ),
            (Stage::CreatingTemp, PutEvent::TempCreated) => (
                self.at(Stage::Receiving),
                PutAction::ReadBody,
            ),
            (Stage::Receiving, PutEvent::Fragment(len)) => if self.written + len
                > MAX_CHUNK_SIZE {
                (self.done(PAYLOAD_TOO_LARGE), PutAction::Discard(PAYLOAD_TOO_LARGE))
            } else {
                (
                    PutChunk { stage: Stage::Writing, written: (self.written + len) as u64 },
                    PutAction::Write,
                )
            },
            (Stage::Receiving, PutEvent::BodyEnded) => (self.at(Stage::Syncing), PutAction::Sync),
            (Stage::Writing, PutEvent::Written) => (self.at(Stage::Receiving), PutAction::ReadBody),
            (Stage::Writing, PutEvent::WriteFailed(WriteFailure::DiskFull)) => (
                self.done(INSUFFICIENT_STORAGE),
                PutAction::Discard(INSUFFICIENT_STORAGE),
            ),
            (Stage::Syncing, PutEvent::Synced) => (self.at(Stage::Renaming), PutAction::Rename),
            (Stage::Renaming, PutEvent::Renamed) => (self.done(CREATED), PutAction::Reply(CREATED)),
            _ => if self.stage == Stage::Receiving || self.stage == Stage::Writing {
                (self.done(INTERNAL_SERVER_ERROR), PutAction::Discard(INTERNAL_SERVER_ERROR))
            } else {
                (self.done(INTERNAL_SERVER_ERROR), PutAction::Reply(INTERNAL_SERVER_ERROR))
            },
        }
    }

    /// Opens a PUT for `chunk_id`: an identifier that is too short is
    /// answered as a bad request; for any other the first call is the check
    /// whether the chunk is stored already.
    pub fn begin(chunk_id: &str) -> (opened: (PutChunk, PutAction))
        ensures
            opened == if chunk_id@.len() >= MIN_CHUNK_ID_LEN {
                (put_start(), PutAction::CheckTarget)
            } else {
                (put_start().done(BAD_REQUEST), PutAction::Reply(BAD_REQUEST))
            },
    {
        if valid_chunk_id(chunk_id) {
            (PutChunk { stage: Stage::CheckingTarget, written: 0 }, PutAction::CheckTarget)
        } else {
            (PutChunk { stage: Stage::Done(BAD_REQUEST), written: 0 }, PutAction::Reply(BAD_REQUEST))
        }
    }

    /// Takes in how the last call went and names the next.
    pub fn on_event(&mut self, event: PutEvent) -> (action: PutAction)
        ensures
            (*final(self), action) == old(self).next(event),
    {
        let (stage, action) = match (self.stage, event) {
            (Stage::Done(status), _) => (Stage::Done(status), PutAction::Reply(status)),
            (Stage::CheckingTarget, PutEvent::TargetExists) => (
                Stage::Done(CONFLICT),
                PutAction::Reply(CONFLICT),
            ),
            (Stage::CheckingTarget, PutEvent::TargetAbsent) => (
                Stage::CreatingDir,
                PutAction::CreateDir,
            ),
            (Stage::CreatingDir, PutEvent::DirReady) => (Stage::CreatingTemp, PutAction::CreateTemp),
            (Stage::CreatingTemp, PutEvent::TempCreated) => (
                Stage::Receiving,
                PutAction::ReadBody,
            ),
            (Stage::Receiving, PutEvent::Fragment(len)) => {
                if self.written > MAX_CHUNK_SIZE || len as u64 > MAX_CHUNK_SIZE - self.written {
                    (Stage::Done(PAYLOAD_TOO_LARGE), PutAction::Discard(PAYLOAD_TOO_LARGE))
                } else {
                    self.written = self.written + len as u64;
                    (Stage::Writing, PutAction::Write)
                }
            },
            (Stage::Receiving, PutEvent::BodyEnded) => (Stage::Syncing, PutAction::Sync),
            (Stage::Writing, PutEvent::Written) => (Stage::Receiving, PutAction::ReadBody),
            (Stage::Writing, PutEvent::WriteFailed(WriteFailure::DiskFull)) => (
                Stage::Done(INSUFFICIENT_STORAGE),
                PutAction::Discard(INSUFFICIENT_STORAGE),
            ),
            (Stage::Syncing, PutEvent::Synced) => (Stage::Renaming, PutAction::Rename),
            (Stage::Renaming, PutEvent::Renamed) => (Stage::Done(CREATED), PutAction::Reply(CREATED)),
            (Stage::Receiving, _) => (
                Stage::Done(INTERNAL_SERVER_ERROR),
                PutAction::Discard(INTERNAL_SERVER_ERROR),
            ),
            (Stage::Writing, _) => (
                Stage::Done(INTERNAL_SERVER_ERROR),
                PutAction::Discard(INTERNAL_SERVER_ERROR),
            ),
            _ => (Stage::Done(INTERNAL_SERVER_ERROR), PutAction::Reply(INTERNAL_SERVER_ERROR)),
        };
        self.stage = stage;
        action
    }
}

/// The PUT after the events `events`, in order, from `start` on, and the
/// calls it named on the way.
pub open spec fn put_run(start: PutChunk, events: Seq<PutEvent>) -> (PutChunk, Seq<PutAction>)
    decreases events.len(),
{
    if events.len() == 0 {
        (start, Seq::empty())
    } else {
        let (before, actions) = put_run(start, events.drop_last());
        let (after, action) = before.next(events.last());
        (after, actions.push(action))
    }
}

/// An answered PUT stays answered: whatever is reported to it afterwards, it
/// names no call but the same answer.
pub proof fn lemma_answered_put_stays_answered(start: PutChunk, status: u16, events: Seq<PutEvent>)
    requires
        start.stage == Stage::Done(status),
    ensures
        put_run(start, events).0 == start,
        put_run(start, events).1.len() == events.len(),
        forall|k: int|
            0 <= k < events.len() ==> #[trigger] put_run(start, events).1[k] == PutAction::Reply(
                status,
            ),
    decreases events.len(),
{
    if events.len() > 0 {
        lemma_answered_put_stays_answered(start, status, events.drop_last());
    }
}

/// Running on from where a first run ended is running both runs in one.
pub proof fn lemma_put_run_splits(start: PutChunk, first: Seq<PutEvent>, more: Seq<PutEvent>)
    ensures
        put_run(start, first + more).0 == put_run(put_run(start, first).0, more).0,
        put_run(start, first + more).1 == put_run(start, first).1 + put_run(
            put_run(start, first).0,
            more,
        ).1,
    decreases more.len(),
{
    let mid = put_run(start, first).0;
    if more.len() == 0 {
        assert(first + more =~= first);
        assert(put_run(start, first).1 + put_run(mid, more).1 =~= put_run(start, first).1);
    } else {
        lemma_put_run_splits(start, first, more.drop_last());
        assert((first + more).drop_last() =~= first + more.drop_last());
        assert((first + more).last() == more.last());
        let action = put_run(mid, more.drop_last()).0.next(more.last()).1;
        assert(put_run(start, first).1 + put_run(mid, more.drop_last()).1.push(action) =~= (
        put_run(start, first).1 + put_run(mid, more.drop_last()).1).push(action));
    }
}

/// Chunks are immutable: a PUT that finds its chunk stored already is
/// answered as a conflict, and neither then nor later names a call that
/// touches a file.
pub proof fn lemma_stored_chunk_is_never_overwritten(events: Seq<PutEvent>)
    requires
        events.len() > 0,
        events[0] == PutEvent::TargetExists,
    ensures
        put_run(put_start(), events).0.stage == Stage::Done(CONFLICT),
        forall|k: int|
            0 <= k < events.len() ==> #[trigger] put_run(put_start(), events).1[k]
                == PutAction::Reply(CONFLICT),
{
    let first = seq![PutEvent::TargetExists];
    let more = events.skip(1);
    assert(events =~= first + more);
    assert(first.drop_last() =~= Seq::<PutEvent>::empty());
    assert(put_run(put_start(), first.drop_last()) == (put_start(), Seq::<PutAction>::empty()));
    let refused = put_start().done(CONFLICT);
    assert(put_run(put_start(), first).0 == refused);
    assert(put_run(put_start(), first).1 =~= seq![PutAction::Reply(CONFLICT)]);
    lemma_put_run_splits(put_start(), first, more);
    lemma_answered_put_stays_answered(refused, CONFLICT, more);
    assert forall|k: int| 0 <= k < events.len() implies #[trigger] put_run(
        put_start(),
        events,
    ).1[k] == PutAction::Reply(CONFLICT) by {
        if k > 0 {
            assert(put_run(refused, more).1[k - 1] == PutAction::Reply(CONFLICT));
        }
    }
}

/// The rename is the one point of commit, and it comes last: a PUT never
/// accepts more than `MAX_CHUNK_SIZE` bytes for writing; it asks for the
/// rename only in answer to a completed sync, after asking for that sync;
/// and until the sync has completed it has asked for no rename at all.
pub proof fn lemma_commit_comes_last(events: Seq<PutEvent>)
    ensures
        put_run(put_start(), events).1.len() == events.len(),
        put_run(put_start(), events).0.written <= MAX_CHUNK_SIZE,
        forall|k: int|
            0 <= k < events.len() && #[trigger] put_run(put_start(), events).1[k]
                == PutAction::Rename ==> k > 0 && events[k] == PutEvent::Synced && put_run(
                put_start(),
                events,
            ).1[k - 1] == PutAction::Sync,
        !(put_run(put_start(), events).0.stage is Done) && put_run(put_start(), events).0.stage
            != Stage::Renaming ==> forall|k: int|
            0 <= k < events.len() ==> #[trigger] put_run(put_start(), events).1[k]
                != PutAction::Rename,
        put_run(put_start(), events).0.stage == Stage::Syncing ==> events.len() > 0 && put_run(
            put_start(),
            events,
        ).1.last() == PutAction::Sync,
    decreases events.len(),
{
    if events.len() > 0 {
        let prev = events.drop_last();
        lemma_commit_comes_last(prev);
        let (before, actions) = put_run(put_start(), prev);
        let (after, action) = before.next(events.last());
        let all = put_run(put_start(), events).1;
        assert(all == actions.push(action));
        assert forall|k: int| 0 <= k < events.len() && #[trigger] all[k]
            == PutAction::Rename implies k > 0 && events[k] == PutEvent::Synced && all[k - 1]
            == PutAction::Sync by {
            if k < prev.len() {
                assert(all[k] == actions[k]);
                assert(events[k] == prev[k]);
                assert(all[k - 1] == actions[k - 1]);
            } else {
                assert(before.stage == Stage::Syncing);
                assert(all[k - 1] == actions.last());
            }
        }
        if !(after.stage is Done) && after.stage != Stage::Renaming {
            assert forall|k: int| 0 <= k < events.len() implies #[trigger] all[k]
                != PutAction::Rename by {
                if k < prev.len() {
                    assert(all[k] == actions[k]);
                }
            }
        }
    }
}

/// A full disk is told apart: a write that fails for want of space ends the
/// PUT as insufficient storage, with the temporary file deleted, and the PUT
/// has asked for no rename, so it leaves no final file either.
pub proof fn lemma_full_disk_is_signalled(events: Seq<PutEvent>)
    requires
        events.len() > 0,
        put_run(put_start(), events.drop_last()).0.stage == Stage::Writing,
        events.last() == PutEvent::WriteFailed(WriteFailure::DiskFull),
    ensures
        put_run(put_start(), events).0.stage == Stage::Done(INSUFFICIENT_STORAGE),
        put_run(put_start(), events).1.last() == PutAction::Discard(INSUFFICIENT_STORAGE),
        forall|k: int|
            0 <= k < events.len() ==> #[trigger] put_run(put_start(), events).1[k]
                != PutAction::Rename,
{
    lemma_commit_comes_last(events.drop_last());
    let (before, actions) = put_run(put_start(), events.drop_last());
    let all = put_run(put_start(), events).1;
    assert forall|k: int| 0 <= k < events.len() implies #[trigger] all[k]
        != PutAction::Rename by {
        if k < events.len() - 1 {
            assert(all[k] == actions[k]);
        }
    }
}

/// A disk as the lemmas below see it: the bytes of every file, by path.
pub type Disk = Map<Seq<char>, Seq<u8>>;

/// One step of a PUT as it is carried out: how the call that was named went
/// and, with it, what only the caller sees.
pub struct PutStep {
    pub event: PutEvent,
    /// The fragment, where the body yielded one.
    pub fragment: Seq<u8>,
    /// What a write that failed left in the temporary file.
    pub left_over: Seq<u8>,
}

/// A PUT being served: the protocol, the call it named last, the disk, the
/// fragment last read, and what has been written of the body.
pub struct Served {
    pub put: PutChunk,
    pub action: PutAction,
    pub disk: Disk,
    pub pending: Seq<u8>,
    pub payload: Seq<u8>,
}

/// Whether `step` can be what comes of the call `action` on `disk`: the
/// check of the target tells whether the final path exists, a fragment has
/// the length that is reported, and every call ends in one of its own
/// events. Nothing comes of an answer.
pub open spec fn can_come_of(disk: Disk, path: Seq<char>, action: PutAction, step: PutStep) -> bool {
    match action {
        PutAction::CheckTarget => step.event == if disk.contains_key(path) {
            PutEvent::TargetExists
        } else {
            PutEvent::TargetAbsent
        },
        PutAction::CreateDir => step.event == PutEvent::DirReady || step.event
            == PutEvent::DirFailed,
        PutAction::CreateTemp => step.event == PutEvent::TempCreated || step.event
            == PutEvent::TempFailed,
        PutAction::ReadBody => step.event == PutEvent::Fragment(step.fragment.len() as usize)
            && step.fragment.len() <= usize::MAX || step.event == PutEvent::BodyEnded || step.event
            == PutEvent::BodyFailed,
        PutAction::Write => step.event == PutEvent::Written || step.event is WriteFailed,
        PutAction::Sync => step.event == PutEvent::Synced || step.event == PutEvent::SyncFailed,
        PutAction::Rename => step.event == PutEvent::Renamed || step.event
            == PutEvent::RenameFailed,
        PutAction::Discard(_) => false,
        PutAction::Reply(_) => false,
    }
}

/// The disk after the call `action` has ended as `step` tells: creating the
/// temporary file leaves it empty, a write appends the pending fragment to
/// it or, failing, leaves anything in it, and the rename moves it to the
/// final path. A call that failed otherwise, and every other call, leaves
/// the disk as it was.
pub open spec fn disk_after(
    disk: Disk,
    path: Seq<char>,
    action: PutAction,
    step: PutStep,
    pending: Seq<u8>,
) -> Disk {
    let temp = temp_path_of(path);
    match (action, step.event) {
        (PutAction::CreateTemp, PutEvent::TempCreated) => disk.insert(temp, Seq::empty()),
        (PutAction::Write, PutEvent::Written) => disk.insert(temp, disk[temp] + pending),
        (PutAction::Write, PutEvent::WriteFailed(_)) => disk.insert(temp, step.left_over),
        (PutAction::Rename, PutEvent::Renamed) => disk.remove(temp).insert(path, disk[temp]),
        _ => disk,
    }
}

/// The PUT for `path` on `disk`, before anything has come back.
pub open spec fn serve_start(disk: Disk) -> Served {
    Served {
        put: put_start(),
        action: PutAction::CheckTarget,
        disk,
        pending: Seq::empty(),
        payload: Seq::empty(),
    }
}

/// The PUT after one more step. The call's effect is on the disk, the
/// protocol names the next call, and where that is to discard the temporary
/// file, the file is gone.
pub open spec fn serve_step(served: Served, path: Seq<char>, step: PutStep) -> Served {
    let (put, action) = served.put.next(step.event);
    let disk = disk_after(served.disk, path, served.action, step, served.pending);
    Served {
        put,
        action,
        disk: if action is Discard {
            disk.remove(temp_path_of(path))
        } else {
            disk
        },
        pending: if step.event is Fragment {
            step.fragment
        } else {
            served.pending
        },
        payload: if step.event == PutEvent::Written {
            served.payload + served.pending
        } else {
            served.payload
        },
    }
}

/// The PUT for `path` on `disk` after the steps `steps`, in order.
pub open spec fn serve(disk: Disk, path: Seq<char>, steps: Seq<PutStep>) -> Served
    decreases steps.len(),
{
    if steps.len() == 0 {
        serve_start(disk)
    } else {
        serve_step(serve(disk, path, steps.drop_last()), path, steps.last())
    }
}

/// Whether the steps can come about one after the other when the calls that
/// the protocol names are carried out on `disk`.
pub open spec fn carried_out(disk: Disk, path: Seq<char>, steps: Seq<PutStep>) -> bool
    decreases steps.len(),
{
    steps.len() == 0 || {
        let before = serve(disk, path, steps.drop_last());
        &&& carried_out(disk, path, steps.drop_last())
        &&& can_come_of(before.disk, path, before.action, steps.last())
    }
}

/// The body as far as it has been read: the fragments joined in order.
pub open spec fn body_of(steps: Seq<PutStep>) -> Seq<u8>
    decreases steps.len(),
{
    if steps.len() == 0 {
        Seq::empty()
    } else if steps.last().event is Fragment {
        body_of(steps.drop_last()) + steps.last().fragment
    } else {
        body_of(steps.drop_last())
    }
}

/// Whether two disks hold the same under every path but the final and the
/// temporary path of the chunk.
pub open spec fn same_elsewhere(a: Disk, b: Disk, path: Seq<char>) -> bool {
    forall|other: Seq<char>|
        other != path && other != temp_path_of(path) ==> (#[trigger] a.contains_key(other)
            == b.contains_key(other) && (a.contains_key(other) ==> a[other] == b[other]))
}

/// What holds of a PUT at every stage, the calls being carried out on a
/// disk.
spec fn stage_holds(served: Served, start: Disk, path: Seq<char>, steps: Seq<PutStep>) -> bool {
    let temp = temp_path_of(path);
    let disk = served.disk;
    let absent = !start.contains_key(path) && !disk.contains_key(path);
    let temp_holds_payload = disk.contains_key(temp) && disk[temp] == served.payload;
    let nothing_read = served.payload == Seq::<u8>::empty() && body_of(steps)
        == Seq::<u8>::empty() && served.put.written == 0;
    &&& same_elsewhere(disk, start, path)
    &&& served.payload.len() <= MAX_CHUNK_SIZE
    &&& match served.put.stage {
        Stage::CheckingTarget => {
            &&& steps.len() == 0
            &&& disk == start
            &&& nothing_read
            &&& served.action == PutAction::CheckTarget
        },
        Stage::CreatingDir => {
            &&& disk == start
            &&& absent
            &&& nothing_read
            &&& served.action == PutAction::CreateDir
        },
        Stage::CreatingTemp => {
            &&& disk == start
            &&& absent
            &&& nothing_read
            &&& served.action == PutAction::CreateTemp
        },
        Stage::Receiving => {
            &&& absent
            &&& temp_holds_payload
            &&& served.payload == body_of(steps)
            &&& served.payload.len() == served.put.written
            &&& served.action == PutAction::ReadBody
        },
        Stage::Writing => {
            &&& absent
            &&& temp_holds_payload
            &&& served.payload + served.pending == body_of(steps)
            &&& served.payload.len() + served.pending.len() == served.put.written
            &&& served.put.written <= MAX_CHUNK_SIZE
            &&& served.action == PutAction::Write
        },
        Stage::Syncing => {
            &&& absent
            &&& temp_holds_payload
            &&& served.payload == body_of(steps)
            &&& served.action == PutAction::Sync
        },
        Stage::Renaming => {
            &&& absent
            &&& temp_holds_payload
            &&& served.payload == body_of(steps)
            &&& served.action == PutAction::Rename
        },
        Stage::Done(status) => {
            &&& steps.len() > 0
            &&& served.action == PutAction::Reply(status) || served.action == PutAction::Discard(
                status,
            )
            &&& served.action is Discard ==> !disk.contains_key(temp)
            &&& if status == CREATED {
                &&& !start.contains_key(path)
                &&& disk.contains_key(path)
                &&& disk[path] == served.payload
                &&& served.payload == body_of(steps)
                &&& !disk.contains_key(temp)
            } else if status == CONFLICT {
                start.contains_key(path) && disk == start
            } else {
                absent
            }
        },
    }
}

/// The temporary path of a chunk is not its final path.
proof fn lemma_temp_is_not_final(path: Seq<char>)
    ensures
        temp_path_of(path) != path,
{
    reveal_strlit(".tmp");
    assert(temp_path_of(path).len() == path.len() + 4);
}

/// Every stage of a PUT that is carried out on a disk is as `stage_holds`
/// says.
proof fn lemma_stage_holds(start: Disk, path: Seq<char>, steps: Seq<PutStep>)
    requires
        carried_out(start, path, steps),
    ensures
        stage_holds(serve(start, path, steps), start, path, steps),
    decreases steps.len(),
{
    lemma_temp_is_not_final(path);
    let temp = temp_path_of(path);
    if steps.len() > 0 {
        let front = steps.drop_last();
        let step = steps.last();
        let before = serve(start, path, front);
        let after = serve(start, path, steps);
        lemma_stage_holds(start, path, front);
        assert(can_come_of(before.disk, path, before.action, step));
        assert(same_elsewhere(after.disk, start, path)) by {
            assert forall|other: Seq<char>| other != path && other != temp implies (
            #[trigger] after.disk.contains_key(other) == start.contains_key(other) && (
            after.disk.contains_key(other) ==> after.disk[other] == start[other])) by {
                assert(before.disk.contains_key(other) == start.contains_key(other));
            }
        }
        match before.put.stage {
            Stage::Writing => {
                if step.event == PutEvent::Written {
                    assert(after.disk[temp] == after.payload);
                }
            },
            _ => {},
        }
    }
}

/// What becomes of a PUT that is carried out on a disk.
///
/// It touches no file but the chunk's own two. Where it answers that the
/// chunk was created, the chunk was not stored before, the final path now
/// holds the body, every fragment of it in order, and the temporary file is
/// gone. Where it answers anything else, or has not answered yet, the final
/// path is as it was: a chunk appears whole or not at all. A chunk that is
/// stored already is left as it is, byte for byte, and the PUT is answered
/// as a conflict at once. Where the protocol discards the temporary file,
/// it is gone. No more than `MAX_CHUNK_SIZE` bytes are ever written.
pub proof fn lemma_put_is_all_or_nothing(start: Disk, path: Seq<char>, steps: Seq<PutStep>)
    requires
        carried_out(start, path, steps),
    ensures
        ({
            let served = serve(start, path, steps);
            let temp = temp_path_of(path);
            &&& same_elsewhere(served.disk, start, path)
            &&& served.payload.len() <= MAX_CHUNK_SIZE
            &&& served.put.stage == Stage::Done(CREATED) ==> {
                &&& !start.contains_key(path)
                &&& served.disk.contains_key(path)
                &&& served.disk[path] == body_of(steps)
                &&& !served.disk.contains_key(temp)
            }
            &&& served.put.stage != Stage::Done(CREATED) ==> {
                &&& served.disk.contains_key(path) == start.contains_key(path)
                &&& served.disk.contains_key(path) ==> served.disk[path] == start[path]
            }
            &&& start.contains_key(path) && steps.len() > 0 ==> {
                &&& served.put.stage == Stage::Done(CONFLICT)
                &&& served.disk == start
            }
            &&& served.action is Discard ==> !served.disk.contains_key(temp)
        }),
{
    lemma_stage_holds(start, path, steps);
    lemma_temp_is_not_final(path);
    let served = serve(start, path, steps);
    if start.contains_key(path) && steps.len() > 0 {
        // the first step is the check of the target, which finds the chunk
        lemma_first_step_decides(start, path, steps);
    }
}

/// Where the chunk is stored already, the first step ends the PUT as a
/// conflict, and nothing can come after it.
proof fn lemma_first_step_decides(start: Disk, path: Seq<char>, steps: Seq<PutStep>)
    requires
        carried_out(start, path, steps),
        start.contains_key(path),
        steps.len() > 0,
    ensures
        steps.len() == 1,
        serve(start, path, steps).put.stage == Stage::Done(CONFLICT),
    decreases steps.len(),
{
    let front = steps.drop_last();
    if front.len() > 0 {
        lemma_first_step_decides(start, path, front);
        assert(front.drop_last() =~= Seq::<PutStep>::empty());
        // the PUT is answered after one step, and nothing comes of an answer
        assert(serve(start, path, front).action == PutAction::Reply(CONFLICT));
        assert(false);
    } else {
        assert(serve(start, path, front) == serve_start(start));
    }
}

/// Chunks are immutable: of two PUTs for the same chunk, carried out one
/// after the other, where the first is answered as created, the second is
/// answered as a conflict, and the bytes stored are those of the first
/// body.
pub proof fn lemma_second_put_is_a_conflict(
    start: Disk,
    path: Seq<char>,
    first: Seq<PutStep>,
    second: Seq<PutStep>,
)
    requires
        carried_out(start, path, first),
        serve(start, path, first).put.stage == Stage::Done(CREATED),
        carried_out(serve(start, path, first).disk, path, second),
        second.len() > 0,
    ensures
        ({
            let after_first = serve(start, path, first).disk;
            let after_second = serve(after_first, path, second);
            &&& after_second.put.stage == Stage::Done(CONFLICT)
            &&& after_second.disk == after_first
            &&& after_second.disk[path] == body_of(first)
        }),
{
    lemma_put_is_all_or_nothing(start, path, first);
    lemma_put_is_all_or_nothing(serve(start, path, first).disk, path, second);
}

/// A full disk leaves nothing behind: where a write fails for want of
/// space, the PUT is answered as insufficient storage, and neither the
/// temporary nor the final file of the chunk exists afterwards.
pub proof fn lemma_full_disk_leaves_no_file(start: Disk, path: Seq<char>, steps: Seq<PutStep>)
    requires
        carried_out(start, path, steps),
        steps.len() > 0,
        serve(start, path, steps.drop_last()).put.stage == Stage::Writing,
        steps.last().event == PutEvent::WriteFailed(WriteFailure::DiskFull),
    ensures
        ({
            let served = serve(start, path, steps);
            &&& served.put.stage == Stage::Done(INSUFFICIENT_STORAGE)
            &&& served.action == PutAction::Discard(INSUFFICIENT_STORAGE)
            &&& !served.disk.contains_key(temp_path_of(path))
            &&& !served.disk.contains_key(path)
        }),
{
    lemma_stage_holds(start, path, steps);
    lemma_stage_holds(start, path, steps.drop_last());
}

/// The answer to a GET: the chunk's bytes where its file could be opened,
/// and not found otherwise.
pub fn read_reply(opened: bool) -> (status: u16)
    ensures
        status == if opened {
            OK
        } else {
            NOT_FOUND
        },
{
    if opened {
        OK
    } else {
        NOT_FOUND
    }
}

/// The answer to a DELETE: no content where the chunk's file was removed,
/// and not found otherwise.
pub fn delete_reply(removed: bool) -> (status: u16)
    ensures
        status == if removed {
            NO_CONTENT
        } else {
            NOT_FOUND
        },
{
    if removed {
        NO_CONTENT
    } else {
        NOT_FOUND
    }
}

} // verus!
