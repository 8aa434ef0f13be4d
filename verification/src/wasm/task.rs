//! Cooperative tasks over the engine's instances: the task table and the
//! scheduler's decisions. The engine calls themselves (start, resume,
//! destroy) are made by the caller, which hands back their outcome.
use vstd::prelude::*;
use vstd::string::StringSliceAdditionalSpecFns;
use crate::text::{str_or_empty, text_or_empty};
use crate::wasm::engine::{MAX_INSTANCES, RunError, TaskResult};

verus! {

/// One task per instance at most.
pub const MAX_TASKS: usize = MAX_INSTANCES;

/// Longest task name kept, in bytes.
pub const MAX_TASK_NAME: usize = 32;

/// Execution state of a task.
#[derive(Clone, Copy, PartialEq, Eq, Debug, Structural)]
pub enum TaskState {
    /// Spawned; its entry function has not been called yet.
    Ready,
    /// Selected by the scheduler and executing.
    Running,
    /// Yielded; waiting for the scheduler to step it again.
    Suspended,
    /// Asleep until the tick count reaches the value held.
    Sleeping(u64),
    /// Ran to completion or was killed.
    Done,
}

/// A task: its state, its engine instance and its name.
#[derive(Clone, Copy)]
pub struct Task {
    pub state: TaskState,
    pub instance: usize,
    pub name: [u8; 32],
    pub name_len: usize,
}

impl Task {
    /// The stored name bytes.
    pub open spec fn name_bytes(&self) -> Seq<u8> {
        self.name@.take(if self.name_len <= 32 { self.name_len as int } else { 32 })
    }

    /// The name as text (`""` when the stored bytes are not valid UTF-8).
    pub fn name_str(&self) -> (s: &str)
        ensures
            s.spec_bytes() == text_or_empty(self.name_bytes()),
    {
        let n = if self.name_len <= 32 { self.name_len } else { 32 };
        let b = vstd::slice::slice_subrange(self.name.as_slice(), 0, n);
        assert(b@ =~= self.name_bytes());
        str_or_empty(b)
    }
}

/// What stepping a task asks of the engine.
#[derive(Clone, Copy, PartialEq, Eq, Debug, Structural)]
pub enum StepAction {
    /// Call the entry function (`main`) of this instance.
    Start(usize),
    /// Resume this instance where it yielded.
    Resume(usize),
}

/// The tick a task asleep for `ms` milliseconds wakes at: ticks are 10 ms,
/// rounded up.
pub open spec fn wake_tick(now: u64, ms: u32) -> int {
    now + (ms + 9) / 10
}

/// The table of tasks.
pub struct TaskQueue {
    slots: Vec<Option<Task>>,
}

impl TaskQueue {
    /// The slots; `None` for a free one.
    pub closed spec fn tasks(&self) -> Seq<Option<Task>> {
        self.slots@
    }

    /// An empty table.
    pub fn new() -> (q: Self)
        ensures
            q.tasks() == Seq::new(MAX_TASKS as nat, |i: int| None::<Task>),
    {
        let q = TaskQueue { slots: vec![None, None, None, None] };
        assert(q.tasks() =~= Seq::new(MAX_TASKS as nat, |i: int| None::<Task>));
        q
    }

    /// The table always has `MAX_TASKS` slots.
    pub closed spec fn wf(&self) -> bool {
        self.slots@.len() == MAX_TASKS
    }

    /// The first free slot; `Err(PoolFull)` when every slot holds a task.
    pub fn free_slot(&self) -> (r: Result<usize, RunError>)
        requires
            self.wf(),
        ensures
            match r {
                Ok(i) => i < MAX_TASKS && self.tasks()[i as int] is None && forall|j: int| 0 <= j < i ==> self.tasks()[j] is Some,
                Err(e) => e == RunError::PoolFull && forall|j: int| 0 <= j < MAX_TASKS ==> self.tasks()[j] is Some,
            },
    {
        let mut i: usize = 0;
        while i < MAX_TASKS
            invariant
                i <= MAX_TASKS,
                self.wf(),
                forall|j: int| 0 <= j < i ==> self.tasks()[j] is Some,
            decreases MAX_TASKS - i,
        {
            if self.slots[i].is_none() {
                return Ok(i);
            }
            i = i + 1;
        }
        Err(RunError::PoolFull)
    }

    /// Record a new task in slot `slot`, `Ready`, for engine instance
    /// `instance`, named by the first 32 bytes of `name`.
    pub fn insert(&mut self, slot: usize, name: &str, instance: usize)
        requires
            old(self).wf(),
            slot < MAX_TASKS,
        ensures
            final(self).wf(),
            final(self).tasks().len() == old(self).tasks().len(),
            forall|j: int| 0 <= j < MAX_TASKS && j != slot ==> final(self).tasks()[j] == old(self).tasks()[j],
            final(self).tasks()[slot as int] matches Some(t) && t.state == TaskState::Ready && t.instance == instance
                && t.name_bytes() == name.spec_bytes().take(if name.spec_bytes().len() <= 32 {
                name.spec_bytes().len() as int
            } else {
                32
            }),
    {
        let src = name.as_bytes();
        let mut len = src.len();
        if len > MAX_TASK_NAME {
            len = MAX_TASK_NAME;
        }
        let mut buf = [0u8; 32];
        let mut j: usize = 0;
        while j < len
            invariant
                j <= len,
                len <= 32,
                len <= src@.len(),
                buf@.len() == 32,
                forall|k: int| 0 <= k < j ==> buf@[k] == src@[k],
            decreases len - j,
        {
            buf[j] = src[j];
            j = j + 1;
        }
        let t = Task { state: TaskState::Ready, instance, name: buf, name_len: len };
        assert(t.name_bytes() =~= src@.take(len as int));
        self.slots.set(slot, Some(t));
    }

    /// The state of task `id`, `None` for a free slot or an id out of range.
    pub fn task_state(&self, id: usize) -> (r: Option<TaskState>)
        requires
            self.wf(),
        ensures
            r == if id < MAX_TASKS {
                match self.tasks()[id as int] {
                    Some(t) => Some(t.state),
                    None => None,
                }
            } else {
                None
            },
    {
        if id >= MAX_TASKS {
            return None;
        }
        match self.slots[id] {
            Some(t) => Some(t.state),
            None => None,
        }
    }

    /// Remove task `id`; the engine instance to destroy, if there was a task.
    pub fn task_kill(&mut self, id: usize) -> (r: Option<usize>)
        requires
            old(self).wf(),
        ensures
            final(self).wf(),
            id < MAX_TASKS ==> final(self).tasks() == old(self).tasks().update(id as int, None),
            id < MAX_TASKS ==> r == match old(self).tasks()[id as int] {
                Some(t) => Some(t.instance),
                None => None,
            },
            id >= MAX_TASKS ==> r is None && final(self).tasks() == old(self).tasks(),
    {
        if id >= MAX_TASKS {
            return None;
        }
        let r = match self.slots[id] {
            Some(t) => Some(t.instance),
            None => None,
        };
        self.slots.set(id, None);
        r
    }

    /// Whether task `id` can be stepped at tick `now`: ready, suspended, or
    /// asleep until a tick already reached.
    pub fn is_task_runnable(&self, id: usize, now: u64) -> (r: bool)
        requires
            self.wf(),
        ensures
            r == (id < MAX_TASKS && match self.tasks()[id as int] {
                Some(t) => match t.state {
                    TaskState::Ready | TaskState::Suspended => true,
                    TaskState::Sleeping(wake) => now >= wake,
                    _ => false,
                },
                None => false,
            }),
    {
        if id >= MAX_TASKS {
            return false;
        }
        match self.slots[id] {
            Some(t) => match t.state {
                TaskState::Ready => true,
                TaskState::Suspended => true,
                TaskState::Sleeping(wake) => now >= wake,
                _ => false,
            },
            None => false,
        }
    }

    /// Begin a step of task `id` at tick `now`. A sleeper whose tick has
    /// come is woken (else nothing happens); a ready task is started and a
    /// suspended one resumed, either way marked `Running`.
    pub fn begin_step(&mut self, id: usize, now: u64) -> (r: Option<StepAction>)
        requires
            old(self).wf(),
        ensures
            final(self).wf(),
            id >= MAX_TASKS ==> r is None && final(self).tasks() == old(self).tasks(),
            id < MAX_TASKS ==> match old(self).tasks()[id as int] {
                None => r is None && final(self).tasks() == old(self).tasks(),
                Some(t) => {
                    let st = match t.state {
                        TaskState::Sleeping(wake) => if now >= wake { TaskState::Suspended } else { t.state },
                        _ => t.state,
                    };
                    match st {
                        TaskState::Ready => r == Some(StepAction::Start(t.instance)) && final(self).tasks()
                            == old(self).tasks().update(id as int, Some(Task { state: TaskState::Running, ..t })),
                        TaskState::Suspended => r == Some(StepAction::Resume(t.instance)) && final(self).tasks()
                            == old(self).tasks().update(id as int, Some(Task { state: TaskState::Running, ..t })),
                        _ => r is None && final(self).tasks() == old(self).tasks(),
                    }
                },
            },
    {
        if id >= MAX_TASKS {
            return None;
        }
        let t = match self.slots[id] {
            Some(t) => t,
            None => return None,
        };
        let state = match t.state {
            TaskState::Sleeping(wake) => {
                if now >= wake {
                    TaskState::Suspended
                } else {
                    return None;
                }
            },
            s => s,
        };
        match state {
            TaskState::Ready => {
                self.slots.set(id, Some(Task { state: TaskState::Running, ..t }));
                Some(StepAction::Start(t.instance))
            },
            TaskState::Suspended => {
                self.slots.set(id, Some(Task { state: TaskState::Running, ..t }));
                Some(StepAction::Resume(t.instance))
            },
            _ => None,
        }
    }

    /// Finish a step of task `id` with the engine's `outcome` at tick `now`,
    /// `sleep_ms` being the sleep the module asked for when it yielded. A
    /// task that completed or trapped is removed (the instance to destroy
    /// is returned); one that yielded sleeps until `wake_tick` when a sleep
    /// was asked for, and is suspended otherwise.
    pub fn finish_step(&mut self, id: usize, outcome: &Result<TaskResult, RunError>, sleep_ms: u32, now: u64) -> (r:
        Option<usize>)
        requires
            old(self).wf(),
            wake_tick(now, sleep_ms) <= u64::MAX,
        ensures
            final(self).wf(),
            id >= MAX_TASKS ==> r is None && final(self).tasks() == old(self).tasks(),
            id < MAX_TASKS ==> match old(self).tasks()[id as int] {
                None => r is None && final(self).tasks() == old(self).tasks(),
                Some(t) => match outcome {
                    Ok(TaskResult::Yielded) => r is None && final(self).tasks() == old(self).tasks().update(
                        id as int,
                        Some(
                            Task {
                                state: if sleep_ms > 0 {
                                    TaskState::Sleeping(wake_tick(now, sleep_ms) as u64)
                                } else {
                                    TaskState::Suspended
                                },
                                ..t
                            },
                        ),
                    ),
                    _ => r == Some(t.instance) && final(self).tasks() == old(self).tasks().update(id as int, None),
                },
            },
    {
        if id >= MAX_TASKS {
            return None;
        }
        let t = match self.slots[id] {
            Some(t) => t,
            None => return None,
        };
        match outcome {
            Ok(TaskResult::Yielded) => {
                let state = if sleep_ms > 0 {
                    TaskState::Sleeping(now + (sleep_ms as u64 + 9) / 10)
                } else {
                    TaskState::Suspended
                };
                self.slots.set(id, Some(Task { state, ..t }));
                None
            },
            _ => {
                self.slots.set(id, None);
                Some(t.instance)
            },
        }
    }

    /// The tasks present, with their ids, in id order.
    pub fn list(&self) -> (r: Vec<(usize, Task)>)
        requires
            self.wf(),
        ensures
            r@ == listed_from(self.tasks(), 0),
    {
        let mut out: Vec<(usize, Task)> = Vec::new();
        let mut i: usize = 0;
        while i < MAX_TASKS
            invariant
                i <= MAX_TASKS,
                self.wf(),
                listed_from(self.tasks(), 0) == out@ + listed_from(self.tasks(), i as int),
            decreases MAX_TASKS - i,
        {
            let ghost before = out@;
            match self.slots[i] {
                Some(t) => {
                    out.push((i, t));
                    assert(out@ + listed_from(self.tasks(), i + 1) =~= before + listed_from(
                        self.tasks(),
                        i as int,
                    ));
                },
                None => {},
            }
            i = i + 1;
        }
        assert(out@ + listed_from(self.tasks(), i as int) =~= out@);
        out
    }
}

/// The tasks present from slot `i` on, with their slot numbers.
pub open spec fn listed_from(v: Seq<Option<Task>>, i: int) -> Seq<(usize, Task)>
    decreases v.len() - i,
{
    if i < 0 || i >= v.len() {
        Seq::empty()
    } else {
        match v[i] {
            Some(t) => seq![(i as usize, t)] + listed_from(v, i + 1),
            None => listed_from(v, i + 1),
        }
    }
}

/// The slot `i` places after `cursor`, going round.
pub open spec fn rr_slot(cursor: usize, i: int) -> int {
    (cursor % MAX_TASKS + 1 + i) % (MAX_TASKS as int)
}

/// Whether slot `id` holds a task that can be stepped at tick `now`.
pub open spec fn runnable(v: Seq<Option<Task>>, id: int, now: u64) -> bool {
    0 <= id < v.len() && match v[id] {
        Some(t) => match t.state {
            TaskState::Ready | TaskState::Suspended => true,
            TaskState::Sleeping(wake) => now >= wake,
            _ => false,
        },
        None => false,
    }
}

impl TaskQueue {
    /// Round robin: the first runnable task after `cursor`, going round the
    /// slots once (ending with `cursor` itself).
    pub fn pick_next(&self, cursor: usize, now: u64) -> (r: Option<usize>)
        requires
            self.wf(),
        ensures
            match r {
                Some(id) => id < MAX_TASKS && runnable(self.tasks(), id as int, now) && exists|i: int|
                    0 <= i < MAX_TASKS && #[trigger] rr_slot(cursor, i) == id && forall|j: int|
                    0 <= j < i ==> !#[trigger] runnable(self.tasks(), rr_slot(cursor, j), now),
                None => forall|id: int| 0 <= id < MAX_TASKS ==> !#[trigger] runnable(self.tasks(), id, now),
            },
    {
        let base = cursor % MAX_TASKS + 1;
        let mut i: usize = 0;
        while i < MAX_TASKS
            invariant
                i <= MAX_TASKS,
                self.wf(),
                base == cursor % MAX_TASKS + 1,
                forall|j: int| 0 <= j < i ==> !#[trigger] runnable(self.tasks(), rr_slot(cursor, j), now),
            decreases MAX_TASKS - i,
        {
            let id = (base + i) % MAX_TASKS;
            assert(id == rr_slot(cursor, i as int));
            if self.is_task_runnable(id, now) {
                return Some(id);
            }
            i = i + 1;
        }
        proof {
            assert forall|id: int| 0 <= id < MAX_TASKS implies !#[trigger] runnable(self.tasks(), id, now) by {
                let j = (id - (cursor % MAX_TASKS + 1) + 2 * MAX_TASKS) % (MAX_TASKS as int);
                assert(rr_slot(cursor, j) == id);
            }
        }
        None
    }
}

} // verus!
