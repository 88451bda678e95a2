use std::collections::VecDeque;

use t4::buffer::{AlignedBuf, FixedBuf, ReadBuf};
use t4::error::{Error, IoError, IoFault};
use t4::io_task::{
    fsync_request, read_request, worker_disconnected_error, write_request, FileTask, PageWrite, PendingFsync,
    PendingRead, PendingWrite, TaskCompletion, WorkerRequest,
};
use t4::io_worker::{
    complete_request_with_error, decode_cqe_result, decode_user_data, encode_user_data, request_op_count,
    Completion, CompletionEvent, InflightRequest, InflightRequestKind, IoWorker, Op, Outcome, SubmissionRing,
    SubmitStep, UringBackend,
};
use t4::memory::pool::{FixedBufferAllocation, FixedBufferPool};

fn buf(len: u32) -> ReadBuf {
    ReadBuf::Aligned(AlignedBuf::new_zeroed(len).unwrap())
}

fn page(offset: u64) -> PageWrite {
    PageWrite { buf: AlignedBuf::new_zeroed(4096).unwrap(), offset }
}

fn read(len: u32, offset: u64, completion: u64) -> WorkerRequest {
    WorkerRequest::Read { buf: buf(len), offset, completion }
}

fn write(offsets: &[u64], completion: u64) -> WorkerRequest {
    WorkerRequest::Write { writes: offsets.iter().map(|o| page(*o)).collect(), completion }
}

fn event(id: u32, index: usize, result: i32) -> CompletionEvent {
    CompletionEvent { user_data: encode_user_data(id, index), result }
}

fn fault(outcome: &Outcome) -> Option<IoFault> {
    let err = match outcome {
        Outcome::Read(result) => result.as_ref().err().copied(),
        Outcome::Write(result) => result.err(),
        Outcome::Fsync(result) => result.err(),
    };
    match err {
        Some(Error::Io(IoError::Fault(fault))) => Some(fault),
        Some(Error::Io(IoError::WorkerFailed(fault))) => Some(fault),
        _ => None,
    }
}

#[test]
fn user_data_round_trip() {
    for (id, index) in [(0u32, 0usize), (1, 2), (u32::MAX, 7), (0x1234_5678, 0xffff_ffff)] {
        assert_eq!(decode_user_data(encode_user_data(id, index)), (id, index));
    }
    assert_eq!(encode_user_data(1, 2), 0x1_0000_0002);
}

#[test]
fn completion_results() {
    assert_eq!(decode_cqe_result(4096), Ok(4096));
    assert_eq!(decode_cqe_result(0), Ok(0));
    assert_eq!(decode_cqe_result(-5), Err(Error::Io(IoError::Fault(IoFault::Os(5)))));
}

#[test]
fn full_rings_refuse_entries() {
    let mut backend = UringBackend::new(1, 1);
    let mut done = Vec::new();
    assert!(backend.submit_request(&None, fsync_request(1), &mut done));
    assert!(!backend.submit_request(&None, fsync_request(2), &mut done));
    assert_eq!(done.len(), 1);
    assert_eq!(done[0].completion, 2);
    assert_eq!(fault(&done[0].outcome), Some(IoFault::QueueFull));
    assert_eq!(SubmissionRing::new(3).available_submission_slots(), 3);
}

#[test]
fn a_read_is_completed_by_its_bytes() {
    let mut backend = UringBackend::new(8, 8);
    let mut done: Vec<Completion> = Vec::new();
    assert!(backend.submit_request(&None, read(4096, 8192, 77), &mut done));
    assert_eq!(backend.ring.entries.len(), 1);
    let entry = backend.ring.entries[0];
    assert_eq!(entry.op, Op::Read { len: 4096 });
    assert_eq!((entry.offset, entry.linked, entry.user_data), (8192, false, 1 << 32));
    backend.poll_completions(&vec![event(1, 0, 4096)], &mut done);
    assert_eq!(done.len(), 1);
    assert_eq!(done[0].completion, 77);
    assert!(matches!(&done[0].outcome, Outcome::Read(Ok((buf, 4096))) if buf.len() == 4096));
    assert!(backend.inflight_requests.is_empty());
    // A completion that nobody waits for is left alone.
    backend.poll_completions(&vec![event(1, 0, 4096)], &mut done);
    assert_eq!(done.len(), 1);
}

#[test]
fn short_reads_and_errors_are_reported() {
    let mut backend = UringBackend::new(8, 8);
    let mut done = Vec::new();
    backend.submit_request(&None, read(4096, 0, 1), &mut done);
    backend.submit_request(&None, read(4096, 0, 2), &mut done);
    backend.submit_request(&None, fsync_request(3), &mut done);
    backend.poll_completions(&vec![event(2, 0, -5), event(1, 0, 100), event(3, 0, -28)], &mut done);
    let found: Vec<(u64, Option<IoFault>)> = done.iter().map(|d| (d.completion, fault(&d.outcome))).collect();
    assert_eq!(
        found,
        vec![
            (2, Some(IoFault::Os(5))),
            (1, Some(IoFault::ShortRead { expected: 4096, got: 100 })),
            (3, Some(IoFault::Os(28))),
        ]
    );
}

#[test]
fn writes_are_linked_and_report_the_first_error() {
    let mut backend = UringBackend::new(8, 8);
    let mut done = Vec::new();
    backend.submit_request(&None, write(&[0, 4096, 8192], 9), &mut done);
    let linked: Vec<bool> = backend.ring.entries.iter().map(|e| e.linked).collect();
    assert_eq!(linked, vec![true, true, false]);
    assert_eq!(backend.ring.entries[2].op, Op::Write { index: 2, len: 4096 });
    assert_eq!(backend.ring.entries[2].offset, 8192);
    backend.poll_completions(&vec![event(1, 0, 4096), event(1, 1, 10)], &mut done);
    assert!(done.is_empty());
    backend.poll_completions(&vec![event(1, 9, 4096), event(1, 2, -125)], &mut done);
    assert_eq!(done.len(), 1);
    assert_eq!(fault(&done[0].outcome), Some(IoFault::ShortWrite { expected: 4096, got: 10 }));

    let mut done = Vec::new();
    backend.submit_request(&None, write(&[0], 10), &mut done);
    backend.poll_completions(&vec![event(2, 0, 4096)], &mut done);
    assert!(matches!(done[0].outcome, Outcome::Write(Ok(()))));
}

#[test]
fn a_partly_submitted_write_fails_once_it_is_over() {
    let mut backend = UringBackend::new(4, 2);
    let mut done = Vec::new();
    assert!(backend.submit_request(&None, write(&[0, 4096, 8192], 5), &mut done));
    assert!(done.is_empty());
    assert_eq!(backend.inflight_requests[&1].remaining, 2);
    backend.poll_completions(&vec![event(1, 0, 4096), event(1, 1, 4096)], &mut done);
    assert_eq!(done.len(), 1);
    assert_eq!(fault(&done[0].outcome), Some(IoFault::QueueFull));
}

#[test]
fn requests_wait_for_slots() {
    let mut backend = UringBackend::new(4, 4);
    let mut done = Vec::new();
    let mut pending = None;
    let mut incoming: VecDeque<WorkerRequest> = VecDeque::new();
    incoming.push_back(write(&[0, 1, 2], 1));
    incoming.push_back(write(&[0, 1, 2, 3, 4], 2));
    incoming.push_back(write(&[0, 1], 3));
    incoming.push_back(fsync_request(4));
    match backend.submit_requests(&None, &mut pending, &mut incoming, false, &mut done) {
        SubmitStep::Submit(entries) => assert_eq!(entries.len(), 3),
        other => panic!("{other:?}"),
    }
    assert_eq!(done.len(), 1);
    assert_eq!(done[0].completion, 2);
    assert_eq!(
        fault(&done[0].outcome),
        Some(IoFault::TooManyEntries { needed: 5, queue_depth: 4 })
    );
    assert!(pending.is_some());
    assert_eq!(incoming.len(), 1);
    backend.on_submitted(0);
    match backend.submit_requests(&None, &mut pending, &mut incoming, false, &mut done) {
        SubmitStep::Submit(entries) => assert_eq!(entries.len(), 3),
        other => panic!("{other:?}"),
    }
    assert!(pending.is_none() && incoming.is_empty());
    assert!(matches!(
        backend.submit_requests(&None, &mut pending, &mut incoming, false, &mut done),
        SubmitStep::Idle
    ));
    assert!(matches!(
        backend.submit_requests(&None, &mut pending, &mut incoming, true, &mut done),
        SubmitStep::Disconnected
    ));
}

#[test]
fn every_request_gets_exactly_one_result() {
    let mut backend = UringBackend::new(16, 16);
    let mut done: Vec<Completion> = Vec::new();
    let mut pending = None;
    let mut incoming: VecDeque<WorkerRequest> = VecDeque::new();
    for i in 0..40u64 {
        incoming.push_back(match i % 4 {
            0 => read(4096, 0, i),
            1 => write(&[0, 4096], i),
            2 => fsync_request(i),
            _ => write(&[0; 17], i),
        });
    }
    loop {
        match backend.submit_requests(&None, &mut pending, &mut incoming, false, &mut done) {
            SubmitStep::Submit(entries) => {
                backend.on_submitted(0);
                let events: Vec<CompletionEvent> = entries
                    .iter()
                    .map(|e| CompletionEvent { user_data: e.user_data, result: 4096 })
                    .collect();
                backend.poll_completions(&events, &mut done);
            }
            _ => break,
        }
    }
    let mut places: Vec<u64> = done.iter().map(|d| d.completion).collect();
    places.sort();
    assert_eq!(places, (0..40).collect::<Vec<u64>>());
}

#[test]
fn a_failed_worker_answers_everyone() {
    let mut backend = UringBackend::new(8, 8);
    let mut done = Vec::new();
    backend.submit_request(&None, read(4096, 0, 1), &mut done);
    backend.submit_request(&None, write(&[0], 2), &mut done);
    let mut incoming: VecDeque<WorkerRequest> = VecDeque::new();
    incoming.push_back(fsync_request(4));
    backend.fail_all(IoFault::Os(9), Some(fsync_request(3)), &mut incoming, &mut done);
    assert!(incoming.is_empty() && backend.inflight_requests.is_empty());
    let mut places: Vec<u64> = done.iter().map(|d| d.completion).collect();
    assert_eq!((places[0], places[3]), (3, 4));
    places.sort();
    assert_eq!(places, vec![1, 2, 3, 4]);
    assert!(done.iter().all(|d| fault(&d.outcome) == Some(IoFault::Os(9))));
}

#[test]
fn request_numbers_in_flight_are_skipped() {
    let mut backend = UringBackend::new(8, 8);
    let mut done = Vec::new();
    backend.next_request_id = u32::MAX - 1;
    backend.submit_request(&None, fsync_request(1), &mut done);
    backend.submit_request(&None, fsync_request(2), &mut done);
    assert!(backend.inflight_requests.contains_key(&u32::MAX));
    assert!(backend.inflight_requests.contains_key(&0));
    backend.next_request_id = u32::MAX - 1;
    assert_eq!(backend.allocate_request_id(), 1);
}

#[test]
fn registered_blocks_are_read_in_parts() {
    let start = 1usize << 30;
    let mut pool = Some(FixedBufferPool::new(start, 64, 1));
    pool.as_mut().unwrap().registration_done(true);
    let size = (1 << 20) + 4096;
    let ptr = pool.as_mut().unwrap().malloc(0, size).unwrap();
    let fixed = ReadBuf::Fixed(FixedBuf { alloc: FixedBufferAllocation { ptr, size }, bytes: vec![0; size] });
    let request = WorkerRequest::Read { buf: fixed, offset: 4096, completion: 1 };
    assert_eq!(request_op_count(&pool, &request), 2);
    let mut backend = UringBackend::new(8, 8);
    let mut done = Vec::new();
    assert!(backend.submit_request(&pool, request, &mut done));
    let head = (1usize << 20) - (ptr - start);
    let entries = &backend.ring.entries;
    assert_eq!(entries[0].op, Op::ReadFixed { ptr, len: head as u32, buf_id: 0 });
    assert_eq!((entries[0].offset, entries[0].linked), (4096, true));
    assert_eq!(
        entries[1].op,
        Op::ReadFixed { ptr: start + (1 << 20), len: (size - head) as u32, buf_id: 1 }
    );
    assert_eq!((entries[1].offset, entries[1].linked), (4096 + head as u64, false));
    backend.poll_completions(&vec![event(1, 0, head as i32)], &mut done);
    assert!(done.is_empty());
    backend.poll_completions(&vec![event(1, 1, (size - head) as i32)], &mut done);
    assert!(matches!(&done[0].outcome, Outcome::Read(Ok((_, n))) if *n == size));
}

#[test]
fn results_of_requests() {
    let done = complete_request_with_error(fsync_request(3), worker_disconnected_error());
    assert_eq!(done.completion, 3);
    assert_eq!(fault(&done.outcome), Some(IoFault::WorkerGone));
    let request = InflightRequest {
        remaining: 0,
        error: None,
        kind: InflightRequestKind::Fsync,
        completion: 4,
    };
    assert!(matches!(request.complete().outcome, Outcome::Fsync(Ok(()))));
}

#[test]
fn completions_hand_over_once() {
    let mut completion: TaskCompletion<u32, &str> = TaskCompletion::new();
    assert!(completion.kept_waker().is_none());
    assert!(completion.poll_result("first", false).is_none());
    assert_eq!(completion.kept_waker(), Some(&"first"));
    assert!(completion.poll_result("same", true).is_none());
    assert_eq!(completion.kept_waker(), Some(&"first"));
    assert!(completion.poll_result("second", false).is_none());
    assert_eq!(completion.complete(Ok(5)), Some("second"));
    assert_eq!(completion.poll_result("late", false), Some(Ok(5)));

    let mut early: TaskCompletion<u32, &str> = TaskCompletion::new();
    assert_eq!(early.complete(Err(Error::NotFound)), None);
    assert_eq!(early.poll_result("w", false), Some(Err(Error::NotFound)));
}

#[test]
fn tasks_go_from_request_to_result() {
    let worker = IoWorker {};
    let mut task = worker.read_at(buf(4096), 12);
    assert_eq!(task.waits_for(), None);
    let pending = task.start(7).unwrap();
    assert!(matches!(
        read_request(pending, 7),
        WorkerRequest::Read { offset: 12, completion: 7, .. }
    ));
    assert_eq!(task.waits_for(), Some(7));
    assert!(task.start(8).is_none());
    assert_eq!(task.sent(true), Ok(()));
    task.finished();
    assert_eq!(task.waits_for(), None);

    let mut task = worker.write(vec![page(0)]);
    let pending: PendingWrite = task.start(1).unwrap();
    assert!(matches!(write_request(pending, 1), WorkerRequest::Write { completion: 1, .. }));
    assert_eq!(task.sent(false), Err(Error::Io(IoError::Fault(IoFault::WorkerGone))));
    assert_eq!(task.waits_for(), None);

    let mut task = worker.fsync();
    let _pending: PendingFsync = task.start(2).unwrap();
    assert!(matches!(fsync_request(2), WorkerRequest::Fsync { completion: 2 }));
    let task = FileTask::new(PendingRead { buf: buf(1), offset: 0 });
    assert_eq!(task.waits_for(), None);
}

#[test]
fn a_request_that_can_never_fit_is_refused_while_the_queue_is_full() {
    let mut backend = UringBackend::new(2, 2);
    let mut done: Vec<Completion> = Vec::new();
    let mut pending = Some(write(&[0, 4096], 1));
    let mut incoming: VecDeque<WorkerRequest> = VecDeque::new();
    incoming.push_back(write(&[0, 4096, 8192], 2));
    incoming.push_back(fsync_request(3));
    match backend.submit_requests(&None, &mut pending, &mut incoming, false, &mut done) {
        SubmitStep::Submit(entries) => assert_eq!(entries.len(), 2),
        other => panic!("{other:?}"),
    }
    assert_eq!(done.len(), 1);
    assert_eq!(done[0].completion, 2);
    assert_eq!(
        fault(&done[0].outcome),
        Some(IoFault::TooManyEntries { needed: 3, queue_depth: 2 })
    );
    assert!(matches!(pending, Some(WorkerRequest::Fsync { completion: 3 })));
    assert!(incoming.is_empty());
}

#[test]
fn requests_are_numbered_one_after_the_other() {
    let mut backend = UringBackend::new(4, 4);
    let mut done: Vec<Completion> = Vec::new();
    backend.next_request_id = 6;
    backend.submit_request(&None, fsync_request(1), &mut done);
    backend.next_request_id = 5;
    let mut pending = None;
    let mut incoming: VecDeque<WorkerRequest> = VecDeque::new();
    incoming.push_back(fsync_request(2));
    incoming.push_back(write(&[0; 5], 3));
    incoming.push_back(fsync_request(4));
    match backend.submit_requests(&None, &mut pending, &mut incoming, false, &mut done) {
        SubmitStep::Submit(entries) => {
            let ids: Vec<u32> = entries.iter().map(|e| decode_user_data(e.user_data).0).collect();
            assert_eq!(ids, vec![7, 6, 8]);
        }
        other => panic!("{other:?}"),
    }
    assert_eq!(backend.next_request_id, 8);
    backend.fail_all(IoFault::Os(5), None, &mut incoming, &mut done);
    assert_eq!(backend.next_request_id, 8);
}

#[test]
fn entries_that_were_not_taken_up_keep_their_slots() {
    let mut backend = UringBackend::new(4, 4);
    let mut done: Vec<Completion> = Vec::new();
    let mut pending = None;
    let mut incoming: VecDeque<WorkerRequest> = VecDeque::new();
    incoming.push_back(write(&[0, 1, 2], 1));
    match backend.submit_requests(&None, &mut pending, &mut incoming, false, &mut done) {
        SubmitStep::Submit(entries) => assert_eq!(entries.len(), 3),
        other => panic!("{other:?}"),
    }
    assert_eq!(backend.ring.available_submission_slots(), 1);
    backend.on_submitted(2);
    assert_eq!(backend.ring.available_submission_slots(), 2);
    incoming.push_back(fsync_request(2));
    incoming.push_back(write(&[0, 1], 3));
    match backend.submit_requests(&None, &mut pending, &mut incoming, false, &mut done) {
        SubmitStep::Submit(entries) => assert_eq!(entries.len(), 1),
        other => panic!("{other:?}"),
    }
    assert!(matches!(pending, Some(WorkerRequest::Write { completion: 3, .. })));
    assert!(matches!(
        backend.submit_requests(&None, &mut pending, &mut incoming, false, &mut done),
        SubmitStep::Idle
    ));
    backend.on_submitted(0);
    match backend.submit_requests(&None, &mut pending, &mut incoming, false, &mut done) {
        SubmitStep::Submit(entries) => assert_eq!(entries.len(), 2),
        other => panic!("{other:?}"),
    }
    assert!(pending.is_none() && done.is_empty());
}
