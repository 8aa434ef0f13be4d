use wasmos::wasm::engine::{
    count_func_imports, init_memory, task_outcome, ArgsBuf, RunError, SleepChannel, TaskResult,
};
use wasmos::wasm::interp::InterpError;
use wasmos::wasm::loader::LoadError;
use wasmos::wasm::task::{StepAction, TaskQueue, TaskState};

#[test]
fn run_error_descriptions() {
    assert_eq!(RunError::PoolFull.as_str(), "instance pool is full");
    assert_eq!(RunError::EntryNotFound.as_str(), "entry point not found in exports");
    assert_eq!(RunError::MemoryTooLarge.as_str(), "module requests more memory than the kernel allows");
    assert_eq!(RunError::ImportNotFound.as_str(), "module imports an unregistered host function");
    assert_eq!(RunError::Load(LoadError::BadMagic).as_str(), "bad magic (not a WASM file)");
    assert_eq!(RunError::Interp(InterpError::DivisionByZero).as_str(), "integer divide by zero");
    assert_eq!(InterpError::UnknownOpcode(0xFE).as_str(), "unknown opcode");
    assert_eq!(InterpError::Yielded.as_str(), "task yielded");
}

#[test]
fn task_outcomes() {
    assert_eq!(task_outcome(Ok(()), Some(7)), Ok(TaskResult::Completed(Some(7))));
    assert_eq!(task_outcome(Ok(()), None), Ok(TaskResult::Completed(None)));
    assert_eq!(task_outcome(Err(InterpError::Yielded), Some(1)), Ok(TaskResult::Yielded));
    assert_eq!(task_outcome(Err(InterpError::Exited), Some(1)), Ok(TaskResult::Completed(None)));
    assert_eq!(
        task_outcome(Err(InterpError::StackUnderflow), None),
        Err(RunError::Interp(InterpError::StackUnderflow))
    );
}

#[test]
fn sleep_channel_is_taken_once() {
    let mut c = SleepChannel::new();
    assert_eq!(c.take_pending_sleep_ms(), 0);
    c.request_sleep_ms(250);
    assert_eq!(c.take_pending_sleep_ms(), 250);
    assert_eq!(c.take_pending_sleep_ms(), 0);
}

#[test]
fn args_are_truncated_to_capacity() {
    let mut a = ArgsBuf::new();
    assert_eq!(a.get(), b"");
    a.set_args(b"hello world");
    assert_eq!(a.get(), b"hello world");
    let long = vec![b'x'; 200];
    a.set_args(&long);
    assert_eq!(a.get().len(), 128);
}

fn import_entry(out: &mut Vec<u8>, m: &str, n: &str, desc: &[u8]) {
    out.push(m.len() as u8);
    out.extend_from_slice(m.as_bytes());
    out.push(n.len() as u8);
    out.extend_from_slice(n.as_bytes());
    out.extend_from_slice(desc);
}

#[test]
fn function_imports_are_counted() {
    let mut sec = vec![4u8];
    import_entry(&mut sec, "env", "print", &[0, 1]);
    import_entry(&mut sec, "env", "mem", &[2, 0, 1]);
    import_entry(&mut sec, "env", "g", &[3, 0x7F, 0]);
    import_entry(&mut sec, "env", "yield", &[0, 0]);
    assert_eq!(count_func_imports(Some(&sec)), 2);
    assert_eq!(count_func_imports(None), 0);
    assert_eq!(count_func_imports(Some(&[])), 0);
    // A malformed entry ends the count with what came before.
    let mut bad = vec![3u8];
    import_entry(&mut bad, "a", "b", &[0, 5]);
    import_entry(&mut bad, "a", "c", &[9]);
    import_entry(&mut bad, "a", "d", &[0, 5]);
    assert_eq!(count_func_imports(Some(&bad)), 1);
}

#[test]
fn data_segments_are_copied() {
    // one active segment at offset 4: "hey"
    let sec = [1u8, 0, 0x41, 4, 0x0B, 3, b'h', b'e', b'y'];
    let mut mem = [0u8; 8];
    assert!(init_memory(&sec, &mut mem));
    assert_eq!(mem, [0, 0, 0, 0, b'h', b'e', b'y', 0]);
    // a segment running past memory is cut off
    let sec2 = [1u8, 0, 0x41, 6, 0x0B, 3, b'a', b'b', b'c'];
    let mut mem2 = [0u8; 8];
    assert!(init_memory(&sec2, &mut mem2));
    assert_eq!(mem2, [0, 0, 0, 0, 0, 0, b'a', b'b']);
    // wrong opcode for the offset
    let bad = [1u8, 0, 0x42, 4, 0x0B, 0];
    let mut mem3 = [0u8; 8];
    assert!(!init_memory(&bad, &mut mem3));
    // data longer than the section
    let short = [1u8, 0, 0x41, 0, 0x0B, 9, 1];
    assert!(!init_memory(&short, &mut mem3));
    assert!(init_memory(&[0u8], &mut mem3));
    assert!(!init_memory(&[], &mut mem3));
}

#[test]
fn task_lifecycle_and_sleep() {
    let mut q = TaskQueue::new();
    let slot = q.free_slot().unwrap();
    assert_eq!(slot, 0);
    q.insert(slot, "worker", 2);
    assert_eq!(q.task_state(0), Some(TaskState::Ready));
    assert_eq!(q.task_state(1), None);
    assert_eq!(q.task_state(9), None);
    assert!(q.is_task_runnable(0, 0));
    assert_eq!(q.begin_step(0, 0), Some(StepAction::Start(2)));
    assert_eq!(q.task_state(0), Some(TaskState::Running));
    // yield with a 25 ms sleep at tick 100: wakes at tick 103
    assert_eq!(q.finish_step(0, &Ok(TaskResult::Yielded), 25, 100), None);
    assert_eq!(q.task_state(0), Some(TaskState::Sleeping(103)));
    assert!(!q.is_task_runnable(0, 102));
    assert_eq!(q.begin_step(0, 102), None);
    assert!(q.is_task_runnable(0, 103));
    assert_eq!(q.begin_step(0, 103), Some(StepAction::Resume(2)));
    // plain yield: suspended
    assert_eq!(q.finish_step(0, &Ok(TaskResult::Yielded), 0, 104), None);
    assert_eq!(q.task_state(0), Some(TaskState::Suspended));
    assert_eq!(q.begin_step(0, 105), Some(StepAction::Resume(2)));
    // completion frees the slot and names the instance to destroy
    assert_eq!(q.finish_step(0, &Ok(TaskResult::Completed(Some(0))), 0, 106), Some(2));
    assert_eq!(q.task_state(0), None);
}

#[test]
fn task_errors_kill_and_full_queue() {
    let mut q = TaskQueue::new();
    for i in 0..4 {
        let s = q.free_slot().unwrap();
        q.insert(s, "t", i);
    }
    assert_eq!(q.free_slot(), Err(RunError::PoolFull));
    assert_eq!(q.begin_step(1, 0), Some(StepAction::Start(1)));
    assert_eq!(q.finish_step(1, &Err(RunError::Interp(InterpError::Unreachable)), 0, 0), Some(1));
    assert_eq!(q.free_slot(), Ok(1));
    assert_eq!(q.task_kill(2), Some(2));
    assert_eq!(q.task_kill(2), None);
    assert_eq!(q.task_kill(7), None);
    let ids: Vec<usize> = q.list().iter().map(|(i, _)| *i).collect();
    assert_eq!(ids, vec![0, 3]);
    assert_eq!(q.list()[0].1.name_str(), "t");
}

#[test]
fn round_robin_picks_after_the_cursor() {
    let mut q = TaskQueue::new();
    q.insert(0, "a", 0);
    q.insert(2, "b", 1);
    assert_eq!(q.pick_next(0, 0), Some(2));
    assert_eq!(q.pick_next(2, 0), Some(0));
    assert_eq!(q.pick_next(3, 0), Some(0));
    let empty = TaskQueue::new();
    assert_eq!(empty.pick_next(1, 0), None);
}
