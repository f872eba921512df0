use chunkstore::chunk_storage::{
    classify_write_failure, delete_reply, get_chunk_path, read_reply, temp_path, valid_chunk_id,
    PutAction, PutChunk, PutEvent, Stage, WriteFailure, ENOSPC, MAX_CHUNK_SIZE, MIN_CHUNK_ID_LEN,
};
use std::collections::HashMap;

/// A disk as a test sees it: files by path, and the bytes it still has room
/// for.
struct Disk {
    files: HashMap<String, Vec<u8>>,
    room: usize,
}

/// Serves a PUT against the disk as a datanode does, following the calls
/// that the protocol names.
fn put(disk: &mut Disk, root: &str, chunk_id: &str, body: &[&[u8]]) -> u16 {
    let (mut state, mut action) = PutChunk::begin(chunk_id);
    let mut path = String::new();
    let mut tmp = String::new();
    let mut next = 0;
    let mut pending: &[u8] = &[];
    loop {
        let event = match action {
            PutAction::Reply(status) => return status,
            PutAction::Discard(status) => {
                disk.files.remove(&tmp);
                return status;
            }
            PutAction::CheckTarget => {
                path = get_chunk_path(root, chunk_id);
                tmp = temp_path(&path);
                if disk.files.contains_key(&path) {
                    PutEvent::TargetExists
                } else {
                    PutEvent::TargetAbsent
                }
            }
            PutAction::CreateDir => PutEvent::DirReady,
            PutAction::CreateTemp => {
                disk.files.insert(tmp.clone(), Vec::new());
                PutEvent::TempCreated
            }
            PutAction::ReadBody => {
                if next < body.len() {
                    pending = body[next];
                    next += 1;
                    PutEvent::Fragment(pending.len())
                } else {
                    PutEvent::BodyEnded
                }
            }
            PutAction::Write => {
                if pending.len() > disk.room {
                    PutEvent::WriteFailed(classify_write_failure(Some(ENOSPC)))
                } else {
                    disk.room -= pending.len();
                    disk.files.get_mut(&tmp).unwrap().extend_from_slice(pending);
                    PutEvent::Written
                }
            }
            PutAction::Sync => PutEvent::Synced,
            PutAction::Rename => {
                let bytes = disk.files.remove(&tmp).unwrap();
                disk.files.insert(path.clone(), bytes);
                PutEvent::Renamed
            }
        };
        action = state.on_event(event);
    }
}

fn run(events: &[PutEvent]) -> (PutChunk, Vec<PutAction>) {
    let (mut state, first) = PutChunk::begin("chunk-0001");
    assert_eq!(first, PutAction::CheckTarget);
    let mut actions = Vec::new();
    for event in events {
        actions.push(state.on_event(*event));
    }
    (state, actions)
}

#[test]
fn limits_are_as_documented() {
    assert_eq!(MIN_CHUNK_ID_LEN, 8);
    assert_eq!(MAX_CHUNK_SIZE, 64 * 1024 * 1024);
    assert_eq!(ENOSPC, 28);
}

#[test]
fn chunk_path_is_sharded_by_the_first_four_characters() {
    assert_eq!(get_chunk_path("/data", "abcdef12-xyz"), "/data/chunks/ab/cd/abcdef12-xyz");
    assert_eq!(get_chunk_path("./data", "0123"), "./data/chunks/01/23/0123");
    assert_eq!(get_chunk_path("", "wxyz9"), "/chunks/wx/yz/wxyz9");
}

#[test]
fn chunk_path_counts_characters_not_bytes() {
    assert_eq!(get_chunk_path("r", "äöüß-rest"), "r/chunks/äö/üß/äöüß-rest");
}

#[test]
fn temp_path_appends_tmp() {
    assert_eq!(temp_path("/data/chunks/ab/cd/abcdef12"), "/data/chunks/ab/cd/abcdef12.tmp");
    assert_eq!(temp_path("/data/chunks/ab/cd/abcd.ef12"), "/data/chunks/ab/cd/abcd.ef12.tmp");
}

#[test]
fn chunk_id_needs_eight_characters() {
    assert!(!valid_chunk_id(""));
    assert!(!valid_chunk_id("1234567"));
    assert!(valid_chunk_id("12345678"));
    assert!(valid_chunk_id("123456789"));
    assert!(!valid_chunk_id("äöüäöü"));
    assert!(valid_chunk_id("äöüäöüäö"));
}

#[test]
fn short_chunk_id_is_a_bad_request() {
    let (state, action) = PutChunk::begin("short");
    assert_eq!(action, PutAction::Reply(400));
    assert_eq!(state.stage, Stage::Done(400));
    let (state, action) = PutChunk::begin("long-enough");
    assert_eq!(action, PutAction::CheckTarget);
    assert_eq!(state, PutChunk { stage: Stage::CheckingTarget, written: 0 });
}

#[test]
fn successful_put_names_every_call_in_order() {
    let (state, actions) = run(&[
        PutEvent::TargetAbsent,
        PutEvent::DirReady,
        PutEvent::TempCreated,
        PutEvent::Fragment(10),
        PutEvent::Written,
        PutEvent::Fragment(20),
        PutEvent::Written,
        PutEvent::BodyEnded,
        PutEvent::Synced,
        PutEvent::Renamed,
    ]);
    assert_eq!(
        actions,
        vec![
            PutAction::CreateDir,
            PutAction::CreateTemp,
            PutAction::ReadBody,
            PutAction::Write,
            PutAction::ReadBody,
            PutAction::Write,
            PutAction::ReadBody,
            PutAction::Sync,
            PutAction::Rename,
            PutAction::Reply(201),
        ]
    );
    assert_eq!(state, PutChunk { stage: Stage::Done(201), written: 30 });
}

#[test]
fn existing_chunk_is_a_conflict() {
    let (state, actions) = run(&[PutEvent::TargetExists, PutEvent::Renamed, PutEvent::Written]);
    assert_eq!(actions, vec![PutAction::Reply(409), PutAction::Reply(409), PutAction::Reply(409)]);
    assert_eq!(state.stage, Stage::Done(409));
}

#[test]
fn failing_setup_is_a_server_error() {
    let (_, actions) = run(&[PutEvent::TargetAbsent, PutEvent::DirFailed]);
    assert_eq!(actions[1], PutAction::Reply(500));
    let (_, actions) = run(&[PutEvent::TargetAbsent, PutEvent::DirReady, PutEvent::TempFailed]);
    assert_eq!(actions[2], PutAction::Reply(500));
}

#[test]
fn body_of_exactly_the_limit_is_accepted() {
    let (state, actions) = run(&[
        PutEvent::TargetAbsent,
        PutEvent::DirReady,
        PutEvent::TempCreated,
        PutEvent::Fragment(MAX_CHUNK_SIZE as usize),
    ]);
    assert_eq!(actions[3], PutAction::Write);
    assert_eq!(state.written, MAX_CHUNK_SIZE);
}

#[test]
fn body_beyond_the_limit_is_too_large_and_discarded() {
    let (state, actions) = run(&[
        PutEvent::TargetAbsent,
        PutEvent::DirReady,
        PutEvent::TempCreated,
        PutEvent::Fragment(MAX_CHUNK_SIZE as usize),
        PutEvent::Written,
        PutEvent::Fragment(1),
    ]);
    assert_eq!(actions[5], PutAction::Discard(413));
    assert_eq!(state.stage, Stage::Done(413));
    let (_, actions) = run(&[
        PutEvent::TargetAbsent,
        PutEvent::DirReady,
        PutEvent::TempCreated,
        PutEvent::Fragment(usize::MAX),
    ]);
    assert_eq!(actions[3], PutAction::Discard(413));
}

#[test]
fn full_disk_is_insufficient_storage_and_discarded() {
    let (state, actions) = run(&[
        PutEvent::TargetAbsent,
        PutEvent::DirReady,
        PutEvent::TempCreated,
        PutEvent::Fragment(100),
        PutEvent::WriteFailed(WriteFailure::DiskFull),
    ]);
    assert_eq!(actions[4], PutAction::Discard(507));
    assert_eq!(state.stage, Stage::Done(507));
    assert!(!actions.contains(&PutAction::Rename));
}

#[test]
fn other_write_failure_is_a_server_error_and_discarded() {
    let (state, actions) = run(&[
        PutEvent::TargetAbsent,
        PutEvent::DirReady,
        PutEvent::TempCreated,
        PutEvent::Fragment(100),
        PutEvent::WriteFailed(WriteFailure::Other),
    ]);
    assert_eq!(actions[4], PutAction::Discard(500));
    assert_eq!(state.stage, Stage::Done(500));
}

#[test]
fn failed_body_is_a_server_error_and_discarded() {
    let (_, actions) = run(&[
        PutEvent::TargetAbsent,
        PutEvent::DirReady,
        PutEvent::TempCreated,
        PutEvent::BodyFailed,
    ]);
    assert_eq!(actions[3], PutAction::Discard(500));
}

#[test]
fn failed_sync_or_rename_is_a_server_error() {
    let start = [PutEvent::TargetAbsent, PutEvent::DirReady, PutEvent::TempCreated, PutEvent::BodyEnded];
    let mut events = start.to_vec();
    events.push(PutEvent::SyncFailed);
    let (_, actions) = run(&events);
    assert_eq!(actions[4], PutAction::Reply(500));
    let mut events = start.to_vec();
    events.push(PutEvent::Synced);
    events.push(PutEvent::RenameFailed);
    let (_, actions) = run(&events);
    assert_eq!(actions[4], PutAction::Rename);
    assert_eq!(actions[5], PutAction::Reply(500));
}

#[test]
fn write_failures_are_told_apart_by_error_number() {
    assert_eq!(classify_write_failure(Some(28)), WriteFailure::DiskFull);
    assert_eq!(classify_write_failure(Some(5)), WriteFailure::Other);
    assert_eq!(classify_write_failure(Some(0)), WriteFailure::Other);
    assert_eq!(classify_write_failure(None), WriteFailure::Other);
}

#[test]
fn get_and_delete_answer_not_found_for_an_absent_chunk() {
    assert_eq!(read_reply(true), 200);
    assert_eq!(read_reply(false), 404);
    assert_eq!(delete_reply(true), 204);
    assert_eq!(delete_reply(false), 404);
}

#[test]
fn second_put_with_the_same_id_is_a_conflict_and_keeps_the_first_bytes() {
    let mut disk = Disk { files: HashMap::new(), room: 1000 };
    assert_eq!(put(&mut disk, "/data", "object-0001", &[b"first ", b"payload"]), 201);
    assert_eq!(put(&mut disk, "/data", "object-0001", &[b"second payload"]), 409);
    assert_eq!(disk.files.len(), 1);
    assert_eq!(disk.files["/data/chunks/ob/je/object-0001"], b"first payload".to_vec());
}

#[test]
fn put_on_a_full_disk_leaves_neither_temp_nor_final_file() {
    let mut disk = Disk { files: HashMap::new(), room: 8 };
    assert_eq!(put(&mut disk, "/data", "object-0002", &[b"12345", b"67890"]), 507);
    assert!(disk.files.is_empty());
}

#[test]
fn put_with_a_short_id_touches_nothing() {
    let mut disk = Disk { files: HashMap::new(), room: 1000 };
    assert_eq!(put(&mut disk, "/data", "tiny", &[b"x"]), 400);
    assert!(disk.files.is_empty());
}
