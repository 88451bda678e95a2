use t4::buffer::AlignedBuf;
use t4::error::{Error, IoError, IoFault};
use t4::io_task::PageWrite;
use t4::io_worker::{Op, SubmissionEntry};
use t4::uring_runtime::{
    take_ws_fsync_result, take_ws_read_result, take_ws_write_result, IoDriver, ReceiveEvent, RuntimeWorker,
    TickAction, UringFuture, UringPoll, WsFsyncTask, WsReadTask, WsWriteTask,
};

fn aligned(len: u32) -> AlignedBuf {
    AlignedBuf::new_zeroed(len).unwrap()
}

fn pages(n: usize) -> Vec<PageWrite> {
    (0..n).map(|i| PageWrite { buf: aligned(4096), offset: 4096 * i as u64 }).collect()
}

fn io(fault: IoFault) -> Error {
    Error::Io(IoError::Fault(fault))
}

#[test]
fn read_tasks() {
    let mut task = WsReadTask::new(aligned(4096), 8192);
    let entries = task.prepare_sqe();
    assert_eq!(
        entries,
        vec![SubmissionEntry { op: Op::Read { len: 4096 }, offset: 8192, linked: false, user_data: 0 }]
    );
    assert_eq!(take_ws_read_result(&mut task).err(), Some(io(IoFault::MissingLength)));
    task.complete(&vec![100]);
    let (buf, n) = take_ws_read_result(&mut task).unwrap();
    assert_eq!((buf.len(), n), (4096, 100));
    task.complete(&vec![1]);
    assert_eq!(take_ws_read_result(&mut task).err(), Some(io(IoFault::MissingBuffer)));
    task.complete(&vec![-5]);
    assert_eq!(take_ws_read_result(&mut task).err(), Some(io(IoFault::Os(5))));
}

#[test]
fn write_tasks_keep_the_first_error() {
    let mut task = WsWriteTask::new(pages(3));
    let linked: Vec<bool> = task.prepare_sqe().iter().map(|e| e.linked).collect();
    assert_eq!(linked, vec![true, true, false]);
    task.complete(&vec![4096, 4096, 4096]);
    assert_eq!(take_ws_write_result(&mut task), Ok(()));
    task.complete(&vec![4096, 7, -125]);
    assert_eq!(
        take_ws_write_result(&mut task),
        Err(io(IoFault::ShortWrite { expected: 4096, got: 7 }))
    );
    assert_eq!(take_ws_write_result(&mut task), Ok(()));
}

#[test]
fn fsync_tasks() {
    let mut task = WsFsyncTask::new();
    assert_eq!(task.prepare_sqe()[0].op, Op::Fsync);
    task.complete(&vec![0]);
    assert_eq!(take_ws_fsync_result(&mut task), Ok(()));
    task.complete(&vec![-28]);
    assert_eq!(take_ws_fsync_result(&mut task), Err(io(IoFault::Os(28))));
}

#[test]
fn tokens_are_given_out_and_come_back() {
    let mut driver = IoDriver::new();
    assert_eq!(driver.tokens.len(), 128);
    assert_eq!(driver.submit_task(500, WsFsyncTask::new().prepare_sqe()), 0);
    assert_eq!(driver.submit_task(501, WsWriteTask::new(pages(2)).prepare_sqe()), 1);
    assert_eq!(driver.tokens.len(), 126);
    assert_eq!(driver.queued_submissions, 3);
    let tags: Vec<u64> = driver.enter().iter().map(|e| e.user_data).collect();
    assert_eq!(tags, vec![0, 1, 1]);
    assert_eq!(driver.queued_submissions, 0);
    assert!(driver.on_completion(1, 4096).is_none());
    let finished = driver.on_completion(0, 0).unwrap();
    assert_eq!((finished.task, finished.completions), (500, vec![0]));
    let finished = driver.on_completion(1, 17).unwrap();
    assert_eq!((finished.task, finished.completions), (501, vec![4096, 17]));
    assert_eq!(driver.tokens.len(), 128);
    assert_eq!(driver.tokens.back(), Some(&1));
    assert_eq!(driver.submit_task(502, WsFsyncTask::new().prepare_sqe()), 2);
}

#[test]
fn entries_without_a_slot_wait() {
    let mut driver = IoDriver::new();
    for i in 0..3u64 {
        driver.submit_task(i, WsWriteTask::new(pages(100)).prepare_sqe());
    }
    assert_eq!(driver.ring.entries.len(), 256);
    assert_eq!(driver.queued_entries.len(), 44);
    assert!(driver.need_syscall(0));
    driver.drain_intermediate_queue();
    assert_eq!(driver.queued_entries.len(), 44);
    assert_eq!(driver.enter().len(), 256);
    driver.drain_intermediate_queue();
    assert_eq!(driver.queued_entries.len(), 44);
    driver.on_entered(0);
    driver.drain_intermediate_queue();
    assert_eq!(driver.queued_entries.len(), 0);
    assert_eq!(driver.ring.entries.len(), 44);
    assert_eq!(driver.queued_submissions, 44);
    assert_eq!(driver.ring.entries[0].offset, 56 * 4096);
    assert!(!driver.need_syscall(5));
    assert!(driver.need_syscall(6));
}

#[test]
fn slots_of_entries_that_were_not_taken_up_stay_full() {
    let mut driver = IoDriver::new();
    for i in 0..3u64 {
        driver.submit_task(i, WsWriteTask::new(pages(100)).prepare_sqe());
    }
    assert_eq!(driver.enter().len(), 256);
    driver.on_entered(246);
    driver.drain_intermediate_queue();
    assert_eq!((driver.ring.entries.len(), driver.queued_entries.len()), (10, 34));
    assert_eq!(driver.queued_submissions, 10);
    assert_eq!(driver.enter().len(), 10);
    assert_eq!(driver.ring.available_submission_slots(), 0);
}

#[test]
fn workers_take_on_a_few_tasks_at_a_time() {
    let mut worker = RuntimeWorker::new();
    assert_eq!(worker.try_tick(1), TickAction::RunLocal);
    for _ in 0..5 {
        assert_eq!(worker.try_tick(0), TickAction::Receive);
        assert!(worker.on_receive(ReceiveEvent::Task));
    }
    assert_eq!(worker.try_tick(0), TickAction::Nothing);
    assert!(!worker.is_idle(0));
    for _ in 0..6 {
        worker.task_finished();
    }
    assert_eq!(worker.active_tasks, 0);
    assert!(!worker.on_receive(ReceiveEvent::Empty));
    assert!(worker.is_idle(0) && !worker.is_over(0));
    assert!(!worker.on_receive(ReceiveEvent::Disconnected));
    assert!(worker.is_over(0) && !worker.is_over(1));
}

#[test]
fn futures_are_submitted_once() {
    let mut future = UringFuture::new();
    assert_eq!(future.poll(false), UringPoll::Submit);
    assert_eq!(future.poll(false), UringPoll::Pending);
    assert_eq!(future.poll(true), UringPoll::Ready);
}
