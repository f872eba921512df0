use chunkstore::fetcher::{
    FetchAction, FetchEvent, FetchTask, OrderedSequencer, PollOutcome, SequencerAction,
    CHANNEL_BUFFER,
};
use std::collections::VecDeque;

/// A chunk's queue as a test sees it: what is in it now, and whether its
/// task is done.
struct Queue {
    items: VecDeque<Result<Vec<u8>, String>>,
    closed: bool,
}

fn poll(queue: &mut Queue) -> (PollOutcome, Option<Result<Vec<u8>, String>>) {
    match queue.items.pop_front() {
        Some(Ok(data)) => (PollOutcome::Data, Some(Ok(data))),
        Some(Err(e)) => (PollOutcome::Error, Some(Err(e))),
        None => {
            if queue.closed {
                (PollOutcome::Closed, None)
            } else {
                (PollOutcome::Pending, None)
            }
        }
    }
}

/// Polls as the output stream does, until it would suspend or finish.
fn pull(sequencer: &mut OrderedSequencer, queues: &mut [Queue], out: &mut Vec<Result<Vec<u8>, String>>) -> SequencerAction {
    loop {
        let index = match sequencer.current() {
            Some(index) => index,
            None => return SequencerAction::Finish,
        };
        let (outcome, item) = poll(&mut queues[index]);
        match sequencer.on_poll(outcome) {
            SequencerAction::Emit => out.push(item.unwrap()),
            SequencerAction::Retry => {}
            SequencerAction::Suspend => return SequencerAction::Suspend,
            SequencerAction::Finish => return SequencerAction::Finish,
        }
    }
}

#[test]
fn channel_buffer_is_eight() {
    assert_eq!(CHANNEL_BUFFER, 8);
}

#[test]
fn later_chunks_that_complete_first_are_still_emitted_in_index_order() {
    let n = 4;
    let mut queues: Vec<Queue> = (0..n).map(|_| Queue { items: VecDeque::new(), closed: false }).collect();
    let mut sequencer = OrderedSequencer::new(n);
    let mut out = Vec::new();
    // the fetches complete last to first
    for index in (0..n).rev() {
        assert_eq!(pull(&mut sequencer, &mut queues, &mut out), SequencerAction::Suspend);
        queues[index].items.push_back(Ok(vec![index as u8; 3]));
        queues[index].items.push_back(Ok(vec![index as u8 + 10; 2]));
        queues[index].closed = true;
        if index > 0 {
            assert_eq!(pull(&mut sequencer, &mut queues, &mut out), SequencerAction::Suspend);
            assert!(out.is_empty(), "nothing may go out before chunk 0");
        }
    }
    assert_eq!(pull(&mut sequencer, &mut queues, &mut out), SequencerAction::Finish);
    let bytes: Vec<u8> = out.into_iter().flat_map(|item| item.unwrap()).collect();
    assert_eq!(bytes, vec![0, 0, 0, 10, 10, 1, 1, 1, 11, 11, 2, 2, 2, 12, 12, 3, 3, 3, 13, 13]);
}

#[test]
fn data_goes_out_as_soon_as_the_cursor_queue_has_it() {
    let mut queues = vec![
        Queue { items: VecDeque::new(), closed: false },
        Queue { items: VecDeque::from(vec![Ok(vec![9u8])]), closed: true },
    ];
    let mut sequencer = OrderedSequencer::new(2);
    let mut out = Vec::new();
    queues[0].items.push_back(Ok(vec![1u8]));
    assert_eq!(pull(&mut sequencer, &mut queues, &mut out), SequencerAction::Suspend);
    assert_eq!(out, vec![Ok(vec![1u8])]);
    queues[0].items.push_back(Ok(vec![2u8]));
    queues[0].closed = true;
    assert_eq!(pull(&mut sequencer, &mut queues, &mut out), SequencerAction::Finish);
    assert_eq!(out, vec![Ok(vec![1u8]), Ok(vec![2u8]), Ok(vec![9u8])]);
}

#[test]
fn an_error_at_the_cursor_ends_the_output() {
    let mut queues = vec![
        Queue { items: VecDeque::from(vec![Ok(vec![1u8])]), closed: true },
        Queue { items: VecDeque::from(vec![Ok(vec![2u8]), Err("chunk fetch failed".to_string())]), closed: true },
        Queue { items: VecDeque::from(vec![Ok(vec![3u8])]), closed: true },
    ];
    let mut sequencer = OrderedSequencer::new(3);
    let mut out = Vec::new();
    assert_eq!(pull(&mut sequencer, &mut queues, &mut out), SequencerAction::Finish);
    assert_eq!(out, vec![Ok(vec![1u8]), Ok(vec![2u8]), Err("chunk fetch failed".to_string())]);
    assert_eq!(sequencer.current(), None);
    assert_eq!(sequencer.on_poll(PollOutcome::Data), SequencerAction::Finish);
}

#[test]
fn no_queues_finish_at_once() {
    let mut sequencer = OrderedSequencer::new(0);
    assert_eq!(sequencer.current(), None);
    assert_eq!(sequencer.on_poll(PollOutcome::Pending), SequencerAction::Finish);
}

#[test]
fn sequencer_steps_one_by_one() {
    let mut s = OrderedSequencer::new(2);
    assert_eq!(s, OrderedSequencer { cursor: 0, total: 2, failed: false });
    assert_eq!(s.current(), Some(0));
    assert_eq!(s.on_poll(PollOutcome::Pending), SequencerAction::Suspend);
    assert_eq!(s.current(), Some(0));
    assert_eq!(s.on_poll(PollOutcome::Data), SequencerAction::Emit);
    assert_eq!(s.current(), Some(0));
    assert_eq!(s.on_poll(PollOutcome::Closed), SequencerAction::Retry);
    assert_eq!(s.current(), Some(1));
    assert_eq!(s.on_poll(PollOutcome::Closed), SequencerAction::Finish);
    assert_eq!(s, OrderedSequencer { cursor: 2, total: 2, failed: false });
    assert_eq!(s.current(), None);
}

#[test]
fn fetch_task_forwards_fragments_until_the_end() {
    let mut task = FetchTask::new();
    assert_eq!(task.on_event(FetchEvent::Answered(200)), FetchAction::Read);
    assert_eq!(task.on_event(FetchEvent::Fragment), FetchAction::SendData);
    assert_eq!(task.on_event(FetchEvent::Sent), FetchAction::Read);
    assert_eq!(task.on_event(FetchEvent::Fragment), FetchAction::SendData);
    assert_eq!(task.on_event(FetchEvent::Sent), FetchAction::Read);
    assert_eq!(task.on_event(FetchEvent::BodyEnded), FetchAction::Stop);
    assert_eq!(task, FetchTask::Stopped);
}

#[test]
fn fetch_task_forwards_a_failed_connect_as_error() {
    let mut task = FetchTask::new();
    assert_eq!(task.on_event(FetchEvent::ConnectFailed), FetchAction::SendError);
    assert_eq!(task, FetchTask::Failing);
    assert_eq!(task.on_event(FetchEvent::Sent), FetchAction::Stop);
    assert_eq!(task, FetchTask::Stopped);
}

#[test]
fn fetch_task_forwards_a_bad_status_as_error() {
    for status in [199u16, 300, 404, 500] {
        let mut task = FetchTask::new();
        assert_eq!(task.on_event(FetchEvent::Answered(status)), FetchAction::SendError);
        assert_eq!(task.on_event(FetchEvent::ReceiverGone), FetchAction::Stop);
    }
}

#[test]
fn fetch_task_forwards_a_failed_read_as_error() {
    let mut task = FetchTask::new();
    assert_eq!(task.on_event(FetchEvent::Answered(299)), FetchAction::Read);
    assert_eq!(task.on_event(FetchEvent::Fragment), FetchAction::SendData);
    assert_eq!(task.on_event(FetchEvent::Sent), FetchAction::Read);
    assert_eq!(task.on_event(FetchEvent::ReadFailed), FetchAction::SendError);
    assert_eq!(task.on_event(FetchEvent::Sent), FetchAction::Stop);
}

#[test]
fn fetch_task_stops_when_nobody_reads() {
    let mut task = FetchTask::new();
    assert_eq!(task.on_event(FetchEvent::Answered(200)), FetchAction::Read);
    assert_eq!(task.on_event(FetchEvent::Fragment), FetchAction::SendData);
    assert_eq!(task.on_event(FetchEvent::ReceiverGone), FetchAction::Stop);
    assert_eq!(task.on_event(FetchEvent::Fragment), FetchAction::Stop);
}

#[test]
fn a_queue_takes_no_more_than_channel_buffer_fragments() {
    let (tx, mut rx) = tokio::sync::mpsc::channel::<Vec<u8>>(CHANNEL_BUFFER);
    for _ in 0..CHANNEL_BUFFER {
        assert!(tx.try_send(vec![0u8; 16]).is_ok());
    }
    // the producer has to wait now, however much more it has fetched
    assert!(tx.try_send(vec![0u8; 16]).is_err());
    // once the reader has taken one fragment there is room for one more
    assert!(rx.try_recv().is_ok());
    assert!(tx.try_send(vec![0u8; 16]).is_ok());
    assert!(tx.try_send(vec![0u8; 16]).is_err());
}
