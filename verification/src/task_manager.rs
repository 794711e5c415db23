//! The table of tasks and the choice of the next task to run.
use vstd::prelude::*;
use crate::ecall::{EcallRequest, shutdown};
use crate::elf::ElfImage;
use crate::trap::TrapAction;
use crate::ppn_manager::PPNManagerImpl;
use crate::task::{
    Task, TaskState, load_code_post, load_code_pre, lemma_with_state, load_page_count,
};

verus! {

/// Most tasks the kernel holds.
pub const MAX_TASK_NUM: usize = 100;

/// Most bytes of a task image.
pub const MAX_TASK_SIZE: usize = 0x100000;

/// Where the task count lies; the images follow, one every `MAX_TASK_SIZE`.
pub const TASK_RUNNING_ADDR: usize = 0x80400000;

/// Size of a user stack.
pub const USER_STACK_SIZE: usize = 4096;

/// Where the image of task `i` starts.
pub open spec fn task_start(i: int) -> int {
    TASK_RUNNING_ADDR + (i + 1) * MAX_TASK_SIZE
}

/// The slot `i` steps after `from`, going round the table.
pub open spec fn slot_after(from: int, i: int) -> int {
    (from + i) % (MAX_TASK_NUM as int)
}

/// Every task in the table `ts` is well formed, one slot per task.
pub open spec fn tasks_wf(ts: Seq<Option<Task>>) -> bool {
    &&& ts.len() == MAX_TASK_NUM
    &&& forall|i: int| 0 <= i < MAX_TASK_NUM && (#[trigger] ts[i]) is Some ==> ts[i]->Some_0.wf()
}

/// Every task's page table in `ts` is held by `a`.
pub open spec fn tasks_held_by(ts: Seq<Option<Task>>, a: PPNManagerImpl) -> bool {
    forall|i: int| 0 <= i < MAX_TASK_NUM && (#[trigger] ts[i]) is Some ==> ts[i]->Some_0.tree().held_by(a)
}

/// Slot `i` of `ts` holds a task that can run.
pub open spec fn runnable_in(ts: Seq<Option<Task>>, i: int) -> bool {
    ts[i] matches Some(t) && (t.state() == TaskState::Init || t.state() == TaskState::Running)
}

/// The first slot of `ts` with a runnable task, looking at the slots `i`,
/// `i + 1`, ... steps after `from`, once round the table.
pub open spec fn first_runnable_in(ts: Seq<Option<Task>>, from: int, i: int) -> Option<int>
    decreases MAX_TASK_NUM - i,
{
    if i < 0 || i >= MAX_TASK_NUM {
        None
    } else if runnable_in(ts, slot_after(from, i)) {
        Some(slot_after(from, i))
    } else {
        first_runnable_in(ts, from, i + 1)
    }
}

/// What starting the next task from slot `from` asks: a well-formed table
/// `ts` whose page tables `a` holds, an image per slot, and what loading the
/// chosen task's image asks.
pub open spec fn switch_pre(
    ts: Seq<Option<Task>>,
    a: PPNManagerImpl,
    images: Seq<Result<ElfImage, &'static str>>,
    from: int,
) -> bool {
    &&& tasks_wf(ts)
    &&& tasks_held_by(ts, a)
    &&& a.wf()
    &&& images.len() == MAX_TASK_NUM
    &&& first_runnable_in(ts, from, 0) matches Some(idx) ==> load_code_pre(ts[idx]->Some_0, a, images[idx])
}

/// What starting the next task from slot `from` does, from tasks `ts0` and
/// allocator `a0` to `ts1` and `a1`, with result `r`: with no runnable task,
/// nothing and "no more task"; else the chosen task's image is loaded, and
/// the task is marked running when the load succeeds; no other slot changes.
pub open spec fn switch_post(
    ts0: Seq<Option<Task>>,
    ts1: Seq<Option<Task>>,
    a0: PPNManagerImpl,
    a1: PPNManagerImpl,
    images: Seq<Result<ElfImage, &'static str>>,
    from: int,
    r: Result<usize, &'static str>,
) -> bool {
    &&& tasks_wf(ts1)
    &&& tasks_held_by(ts1, a1)
    &&& a1.wf()
    &&& a1.extends(a0)
    &&& first_runnable_in(ts0, from, 0) is None ==> (r matches Err(e) && e@ == "no more task"@) && ts1 == ts0
        && a1 == a0
    &&& first_runnable_in(ts0, from, 0) matches Some(idx) ==> {
        let t0 = ts0[idx]->Some_0;
        let t1 = ts1[idx]->Some_0;
        let lr: Result<(), &'static str> = match r {
            Ok(_) => Ok(()),
            Err(e) => Err(e),
        };
        &&& r is Ok ==> r == Ok::<usize, &'static str>(idx as usize)
        &&& ts1[idx] is Some
        &&& load_code_post(t0, t1.with_state(t0.state()), a0, a1, images[idx], lr)
        &&& t1.state() == (if r is Ok {
            TaskState::Running
        } else {
            t0.state()
        })
        &&& forall|j: int| 0 <= j < MAX_TASK_NUM && j != idx ==> #[trigger] ts1[j] == ts0[j]
    }
}

/// The table `ts` with the task in slot `c`, if any, stopped.
pub open spec fn stop_task(ts: Seq<Option<Task>>, c: int) -> Seq<Option<Task>> {
    match ts[c] {
        Some(t) => ts.update(c, Some(t.with_state(TaskState::Stopped))),
        None => ts,
    }
}

/// The trap ends the running task for good: it exited, or made a system
/// call, an exception or an interrupt that the kernel does not support.
pub open spec fn stops_task(action: TrapAction) -> bool {
    ||| action is TaskExit
    ||| action is UnsupportedSyscall
    ||| action is UnsupportedException
    ||| action is UnsupportedInterrupt
}

/// The tasks among which the next one is chosen after a trap with `action`
/// in the task of slot `c`: that task stopped when the trap ends it.
pub open spec fn tasks_after_trap(ts: Seq<Option<Task>>, c: int, action: TrapAction) -> Seq<Option<Task>> {
    if stops_task(action) {
        stop_task(ts, c)
    } else {
        ts
    }
}

/// The kernel's tasks, one slot each.
pub struct TaskManager {
    tasks: Vec<Option<Task>>,
}

impl TaskManager {
    /// The tasks, by slot.
    pub closed spec fn tasks(&self) -> Seq<Option<Task>> {
        self.tasks@
    }

    /// The table's invariant: one slot per task, each task well formed.
    pub open spec fn wf(&self) -> bool {
        tasks_wf(self.tasks())
    }

    /// Every task's page table is held by `a`.
    pub open spec fn held_by(&self, a: PPNManagerImpl) -> bool {
        tasks_held_by(self.tasks(), a)
    }

    /// Slot `i` holds a task that can run.
    pub open spec fn runnable_at(&self, i: int) -> bool {
        runnable_in(self.tasks(), i)
    }

    /// The first slot with a runnable task, looking at the slots `i`, `i + 1`,
    /// ... steps after `from`, once round the table.
    pub open spec fn first_runnable(&self, from: int, i: int) -> Option<int> {
        first_runnable_in(self.tasks(), from, i)
    }

    /// The slot of the next task to run from slot `from` on.
    pub open spec fn next_runnable(&self, from: int) -> Option<int> {
        self.first_runnable(from, 0)
    }

    /// A table with every slot empty.
    pub fn new() -> (r: Self)
        ensures
            r.wf(),
            forall|i: int| 0 <= i < MAX_TASK_NUM ==> #[trigger] r.tasks()[i] is None,
    {
        let mut tasks: Vec<Option<Task>> = Vec::new();
        let mut i: usize = 0;
        while i < MAX_TASK_NUM
            invariant
                0 <= i <= MAX_TASK_NUM,
                tasks@.len() == i,
                forall|j: int| 0 <= j < i ==> #[trigger] tasks@[j] is None,
            decreases MAX_TASK_NUM - i,
        {
            tasks.push(None);
            i = i + 1;
        }
        TaskManager { tasks }
    }

    /// Puts a fresh task in each of the first `task_num` slots: task `i`'s
    /// image lies at `[TASK_RUNNING_ADDR + (i + 1) * MAX_TASK_SIZE,
    /// TASK_RUNNING_ADDR + (i + 2) * MAX_TASK_SIZE)`. Each takes its two
    /// kernel stack pages from `allocator`.
    pub fn init_tasks(&mut self, task_num: usize, allocator: &mut PPNManagerImpl)
        requires
            old(self).wf(),
            old(self).held_by(*old(allocator)),
            old(allocator).wf(),
            task_num <= MAX_TASK_NUM,
            old(allocator).free_count() >= 2 * task_num,
        ensures
            final(self).wf(),
            final(self).held_by(*final(allocator)),
            final(allocator).wf(),
            final(allocator).extends(*old(allocator)),
            final(allocator).free_count() == old(allocator).free_count() - 2 * task_num,
            forall|i: int|
                0 <= i < task_num ==> {
                    let t = #[trigger] final(self).tasks()[i];
                    &&& t is Some
                    &&& t->Some_0.is_fresh(task_start(i) as usize, task_start(i + 1) as usize)
                },
            forall|i: int|
                task_num <= i < MAX_TASK_NUM ==> #[trigger] final(self).tasks()[i] == old(self).tasks()[i],
    {
        let ghost a0 = *allocator;
        let mut i: usize = 0;
        while i < task_num
            invariant
                0 <= i <= task_num <= MAX_TASK_NUM,
                self.wf(),
                self.held_by(*allocator),
                allocator.wf(),
                allocator.extends(a0),
                a0.free_count() >= 2 * task_num,
                allocator.free_count() == a0.free_count() - 2 * i,
                forall|j: int|
                    0 <= j < i ==> {
                        let t = #[trigger] self.tasks()[j];
                        &&& t is Some
                        &&& t->Some_0.is_fresh(task_start(j) as usize, task_start(j + 1) as usize)
                    },
                forall|j: int|
                    task_num <= j < MAX_TASK_NUM ==> #[trigger] self.tasks()[j] == old(self).tasks()[j],
            decreases task_num - i,
        {
            let ghost before = *self;
            let ghost a1 = *allocator;
            let start = TASK_RUNNING_ADDR + (i + 1) * MAX_TASK_SIZE;
            let end = TASK_RUNNING_ADDR + (i + 2) * MAX_TASK_SIZE;
            let task = Task::new(start, end, allocator);
            self.tasks.set(i, Some(task));
            proof {
                assert forall|j: int|
                    0 <= j < MAX_TASK_NUM && (#[trigger] self.tasks()[j]) is Some implies self.tasks()[j]->Some_0.tree().held_by(
                    *allocator,
                ) by {
                    if j != i {
                        assert(self.tasks()[j] == before.tasks()[j]);
                        crate::page_table::lemma_held_by_extends(
                            self.tasks()[j]->Some_0.tree(),
                            a1,
                            *allocator,
                        );
                    }
                }
            }
            i = i + 1;
        }
    }

    /// The slot of the next task to run from slot `from_idx` on: the first
    /// slot, going once round the table, whose task can run.
    pub fn find_next_runnable(&self, from_idx: usize) -> (r: Option<usize>)
        requires
            self.wf(),
        ensures
            match r {
                Some(i) => self.next_runnable(from_idx as int) == Some(i as int),
                None => self.next_runnable(from_idx as int) is None,
            },
    {
        let start = from_idx % MAX_TASK_NUM;
        let mut i: usize = 0;
        while i < MAX_TASK_NUM
            invariant
                0 <= i <= MAX_TASK_NUM,
                start == from_idx % MAX_TASK_NUM,
                self.wf(),
                self.next_runnable(from_idx as int) == self.first_runnable(from_idx as int, i as int),
            decreases MAX_TASK_NUM - i,
        {
            let idx = (start + i) % MAX_TASK_NUM;
            proof {
                assert(idx == slot_after(from_idx as int, i as int)) by (nonlinear_arith)
                    requires
                        start == from_idx % 100,
                        idx == (start + i) % 100,
                ;
            }
            let runnable = match &self.tasks[idx] {
                Some(task) => task.is_runnable(),
                None => false,
            };
            if runnable {
                return Some(idx);
            }
            i = i + 1;
        }
        None
    }

    /// Whether starting the next task from slot `from_idx` on can go ahead:
    /// true unless the chosen task still has to be loaded and either its page
    /// table already has a root (an earlier load failed), or a frame is free
    /// for its root table, its image was parsed, and a segment's page
    /// arithmetic overflows or too few frames are left for its pages.
    pub fn can_switch(
        &self,
        from_idx: usize,
        allocator: &PPNManagerImpl,
        images: &Vec<Result<ElfImage, &'static str>>,
    ) -> (r: bool)
        requires
            self.wf(),
            self.held_by(*allocator),
            allocator.wf(),
            images@.len() == MAX_TASK_NUM,
        ensures
            r == switch_pre(self.tasks(), *allocator, images@, from_idx as int),
    {
        let next = self.find_next_runnable(from_idx);
        proof {
            lemma_next_runnable(*self, from_idx as int);
        }
        match next {
            None => true,
            Some(idx) => match &self.tasks[idx] {
                Some(task) => {
                    if task.is_loaded() {
                        return true;
                    }
                    if task.has_page_table() {
                        return false;
                    }
                    let free = allocator.free_page_count();
                    if free == 0 {
                        return true;
                    }
                    match &images[idx] {
                        Err(_) => true,
                        Ok(image) => match load_page_count(image) {
                            None => false,
                            Some(c) => free - 1 >= c,
                        },
                    }
                },
                None => true,
            },
        }
    }

    /// Starts the next task from slot `from_idx` on, going once round the
    /// table: loads the first runnable task's image (its entry of `images`)
    /// and marks it running. Fails with "no more task" when no task can run,
    /// and with the load's error when the load fails.
    pub fn switch_to_next_task(
        &mut self,
        from_idx: usize,
        allocator: &mut PPNManagerImpl,
        images: &Vec<Result<ElfImage, &'static str>>,
    ) -> (r: Result<usize, &'static str>)
        requires
            switch_pre(old(self).tasks(), *old(allocator), images@, from_idx as int),
        ensures
            switch_post(old(self).tasks(), final(self).tasks(), *old(allocator), *final(allocator), images@, from_idx as int, r),
    {
        let ghost next = self.next_runnable(from_idx as int);
        let start = from_idx % MAX_TASK_NUM;
        let mut i: usize = 0;
        while i < MAX_TASK_NUM
            invariant
                0 <= i <= MAX_TASK_NUM,
                start == from_idx % MAX_TASK_NUM,
                *self == *old(self),
                *allocator == *old(allocator),
                images@.len() == MAX_TASK_NUM,
                self.wf(),
                self.held_by(*allocator),
                allocator.wf(),
                next matches Some(k) ==> load_code_pre(self.tasks()[k]->Some_0, *allocator, images@[k]),
                next == self.next_runnable(from_idx as int),
                next == self.first_runnable(from_idx as int, i as int),
            decreases MAX_TASK_NUM - i,
        {
            let idx = (start + i) % MAX_TASK_NUM;
            proof {
                assert(idx == slot_after(from_idx as int, i as int)) by (nonlinear_arith)
                    requires
                        start == from_idx % 100,
                        idx == (start + i) % 100,
                ;
            }
            let runnable = match &self.tasks[idx] {
                Some(task) => task.is_runnable(),
                None => false,
            };
            if runnable {
                let ghost t0 = self.tasks()[idx as int]->Some_0;
                let ghost s0 = *self;
                let ghost a0 = *allocator;
                let mut loaded: Result<(), &'static str> = Ok(());
                let ghost mut mid = t0;
                match &mut self.tasks[idx] {
                    Some(task) => {
                        loaded = task.load_code(allocator, &images[idx]);
                        proof {
                            mid = *task;
                        }
                        if loaded.is_ok() {
                            task.set_state(TaskState::Running);
                        }
                    },
                    None => {},
                }
                proof {
                    let t1 = self.tasks()[idx as int]->Some_0;
                    lemma_with_state(mid, TaskState::Running);
                    lemma_with_state(mid, t0.state());
                    lemma_with_state(mid.with_state(TaskState::Running), t0.state());
                    assert(load_code_post(t0, mid, a0, *allocator, images@[idx as int], loaded));
                    assert(t1.with_state(t0.state()) == mid);
                    assert forall|j: int|
                        0 <= j < MAX_TASK_NUM && j != idx implies #[trigger] self.tasks()[j] == s0.tasks()[j] by {
                    }
                    assert forall|j: int|
                        0 <= j < MAX_TASK_NUM && (#[trigger] self.tasks()[j]) is Some implies self.tasks()[j]->Some_0.tree().held_by(
                        *allocator,
                    ) by {
                        if j != idx {
                            assert(self.tasks()[j] == s0.tasks()[j]);
                            crate::page_table::lemma_held_by_extends(
                                self.tasks()[j]->Some_0.tree(),
                                a0,
                                *allocator,
                            );
                        }
                    }
                }
                return match loaded {
                    Ok(()) => Ok(idx),
                    Err(e) => Err(e),
                };
            }
            i = i + 1;
        }
        Err("no more task")
    }

    /// The task in slot `idx`, if any.
    pub fn get_task_mut(&mut self, idx: usize) -> (r: Option<&mut Task>)
        requires
            old(self).wf(),
            idx < MAX_TASK_NUM,
        ensures
            r is Some <==> old(self).tasks()[idx as int] is Some,
            r matches Some(t) ==> *t == old(self).tasks()[idx as int]->Some_0,
            r matches Some(t) ==> final(self).tasks() == old(self).tasks().update(
                idx as int,
                Some(*final(t)),
            ),
            r is None ==> *final(self) == *old(self),
    {
        if self.tasks[idx].is_none() {
            return None;
        }
        self.tasks[idx].as_mut()
    }

    /// The task in slot `idx`, if any.
    pub fn get_task(&self, idx: usize) -> (r: Option<&Task>)
        requires
            self.wf(),
            idx < MAX_TASK_NUM,
        ensures
            r is Some <==> self.tasks()[idx as int] is Some,
            r matches Some(t) ==> *t == self.tasks()[idx as int]->Some_0,
    {
        self.tasks[idx].as_ref()
    }
}

/// After a trap that ends the running task's turn: starts the next task
/// after slot `current_idx` and gives its slot, or, when none can be
/// started, the environment call that shuts the machine down.
pub fn build_next_trap_context(
    manager: &mut TaskManager,
    current_idx: usize,
    allocator: &mut PPNManagerImpl,
    images: &Vec<Result<ElfImage, &'static str>>,
) -> (r: Result<usize, EcallRequest>)
    requires
        current_idx < usize::MAX,
        switch_pre(old(manager).tasks(), *old(allocator), images@, current_idx + 1),
    ensures
        match r {
            Ok(idx) => switch_post(
                old(manager).tasks(),
                final(manager).tasks(),
                *old(allocator),
                *final(allocator),
                images@,
                current_idx + 1,
                Ok(idx),
            ),
            Err(req) => req == (EcallRequest { op_code: 8, a0: 0, a1: 0, a2: 0 }) && exists|e: &'static str|
                #[trigger] switch_post(
                    old(manager).tasks(),
                    final(manager).tasks(),
                    *old(allocator),
                    *final(allocator),
                    images@,
                    current_idx + 1,
                    Err(e),
                ),
        },
{
    match manager.switch_to_next_task(current_idx + 1, allocator, images) {
        Ok(idx) => Ok(idx),
        Err(_) => Err(shutdown()),
    }
}

/// Carries out the task side of a trap taken in the task of slot
/// `current`, once `action` was decided: a system call goes back to the same
/// task; an exit or an unsupported call, exception or interrupt stops the
/// task; then, for every action but a system call, the next task after
/// `current` is started (its slot is returned), or the shutdown call is
/// returned when none can be started.
pub fn handle_trap(
    manager: &mut TaskManager,
    current: usize,
    action: &TrapAction,
    allocator: &mut PPNManagerImpl,
    images: &Vec<Result<ElfImage, &'static str>>,
) -> (r: Result<usize, EcallRequest>)
    requires
        old(manager).wf(),
        old(manager).held_by(*old(allocator)),
        old(allocator).wf(),
        images@.len() == MAX_TASK_NUM,
        current < MAX_TASK_NUM,
        !(action is Syscall) ==> switch_pre(
            tasks_after_trap(old(manager).tasks(), current as int, *action),
            *old(allocator),
            images@,
            current + 1,
        ),
    ensures
        action is Syscall ==> r == Ok::<usize, EcallRequest>(current) && final(manager).tasks() == old(
            manager,
        ).tasks() && *final(allocator) == *old(allocator),
        !(action is Syscall) ==> {
            let ts = tasks_after_trap(old(manager).tasks(), current as int, *action);
            match r {
                Ok(idx) => switch_post(
                    ts,
                    final(manager).tasks(),
                    *old(allocator),
                    *final(allocator),
                    images@,
                    current + 1,
                    Ok(idx),
                ),
                Err(req) => req == (EcallRequest { op_code: 8, a0: 0, a1: 0, a2: 0 }) && exists|e: &'static str|
                    #[trigger] switch_post(
                        ts,
                        final(manager).tasks(),
                        *old(allocator),
                        *final(allocator),
                        images@,
                        current + 1,
                        Err(e),
                    ),
            }
        },
{
    let stops = match action {
        TrapAction::Syscall(_) => {
            return Ok(current);
        },
        TrapAction::Timer { .. } => false,
        _ => true,
    };
    if stops {
        let ghost before = manager.tasks();
        match manager.get_task_mut(current) {
            Some(task) => task.set_state(TaskState::Stopped),
            None => {},
        }
        proof {
            assert(manager.tasks() =~= stop_task(before, current as int));
        }
    }
    build_next_trap_context(manager, current, allocator, images)
}

/// Whether `handle_trap` will find the frames it asks for: what
/// `switch_pre` asks of the tasks left after the trap.
pub fn can_handle_trap(
    manager: &TaskManager,
    current: usize,
    action: &TrapAction,
    allocator: &PPNManagerImpl,
    images: &Vec<Result<ElfImage, &'static str>>,
) -> (r: bool)
    requires
        manager.wf(),
        manager.held_by(*allocator),
        allocator.wf(),
        images@.len() == MAX_TASK_NUM,
        current < MAX_TASK_NUM,
    ensures
        r == (!(action is Syscall) ==> switch_pre(
            tasks_after_trap(manager.tasks(), current as int, *action),
            *allocator,
            images@,
            current + 1,
        )),
{
    let stops = match action {
        TrapAction::Syscall(_) => {
            return true;
        },
        TrapAction::Timer { .. } => false,
        _ => true,
    };
    if !stops {
        return manager.can_switch(current + 1, allocator, images);
    }
    let ghost ts = manager.tasks();
    proof {
        lemma_stop_task(ts, current as int, *allocator, 0);
    }
    assert(stops_task(*action));
    let ghost st = stop_task(ts, current as int);
    proof {
        lemma_next_runnable(*manager, current + 1);
    }
    match manager.find_next_runnable(current + 1) {
        Some(i) => {
            if i == current {
                assert(first_runnable_in(st, current + 1, 0) is None);
                true
            } else {
                assert(first_runnable_in(st, current + 1, 0) == Some(i as int));
                assert(st[i as int] == ts[i as int]);
                manager.can_switch(current + 1, allocator, images)
            }
        },
        None => {
            assert(first_runnable_in(st, current + 1, 0) is None);
            manager.can_switch(current + 1, allocator, images)
        },
    }
}

/// Stopping the task of slot `c` keeps the table well formed and held, and
/// changes the search from slot `c + 1` only in that `c`, reached last,
/// is no longer found.
proof fn lemma_stop_task(ts: Seq<Option<Task>>, c: int, a: PPNManagerImpl, i: int)
    requires
        tasks_wf(ts),
        tasks_held_by(ts, a),
        0 <= c < MAX_TASK_NUM,
        0 <= i <= MAX_TASK_NUM,
    ensures
        tasks_wf(stop_task(ts, c)),
        tasks_held_by(stop_task(ts, c), a),
        first_runnable_in(stop_task(ts, c), c + 1, i) == (if first_runnable_in(ts, c + 1, i) == Some(c) {
            None
        } else {
            first_runnable_in(ts, c + 1, i)
        }),
        forall|j: int| 0 <= j < MAX_TASK_NUM && j != c ==> #[trigger] stop_task(ts, c)[j] == ts[j],
    decreases MAX_TASK_NUM - i,
{
    let st = stop_task(ts, c);
    if ts[c] is Some {
        lemma_with_state(ts[c]->Some_0, TaskState::Stopped);
    }
    assert forall|j: int| 0 <= j < MAX_TASK_NUM && (#[trigger] st[j]) is Some implies st[j]->Some_0.wf()
        && st[j]->Some_0.tree().held_by(a) by {
        if j != c {
            assert(st[j] == ts[j]);
        }
    }
    if i < MAX_TASK_NUM {
        lemma_stop_task(ts, c, a, i + 1);
        let s = slot_after(c + 1, i);
        assert(s == c <==> i == MAX_TASK_NUM - 1);
        if s != c {
            assert(st[s] == ts[s]);
        }
    }
}

/// Looking from step `i` on finds a runnable slot exactly when one of the
/// remaining steps reaches one, and what it finds is runnable.
proof fn lemma_first_runnable(m: TaskManager, from: int, i: int)
    requires
        0 <= i <= MAX_TASK_NUM,
    ensures
        m.first_runnable(from, i) matches Some(idx) ==> 0 <= idx < MAX_TASK_NUM && m.runnable_at(idx),
        m.first_runnable(from, i) is None <==> forall|k: int|
            i <= k < MAX_TASK_NUM ==> !m.runnable_at(#[trigger] slot_after(from, k)),
    decreases MAX_TASK_NUM - i,
{
    if i < MAX_TASK_NUM {
        lemma_first_runnable(m, from, i + 1);
        assert(0 <= slot_after(from, i) < MAX_TASK_NUM);
    }
}

/// The scheduler's choice: the next task to run sits in a slot of the table
/// and can run, and none is chosen exactly when no slot holds a task that
/// can run, wherever the search starts.
pub proof fn lemma_next_runnable(m: TaskManager, from: int)
    ensures
        m.next_runnable(from) matches Some(idx) ==> 0 <= idx < MAX_TASK_NUM && m.runnable_at(idx),
        m.next_runnable(from) is None <==> forall|j: int|
            0 <= j < MAX_TASK_NUM ==> !#[trigger] m.runnable_at(j),
{
    lemma_first_runnable(m, from, 0);
    if m.next_runnable(from) is None {
        assert forall|j: int| 0 <= j < MAX_TASK_NUM implies !#[trigger] m.runnable_at(j) by {
            let k = (j - from) % 100;
            assert(0 <= k < 100);
            vstd::arithmetic::div_mod::lemma_add_mod_noop_right(from, j - from, 100);
            vstd::arithmetic::div_mod::lemma_small_mod(j as nat, 100);
            assert(slot_after(from, k) == j);
        }
    }
}

} // verus!
