//! Tasks on a processor: the context a task switch saves, and the scheduling decisions of a
//! processor.

use vstd::prelude::*;

verus! {

/// The registers a task switch saves: the return address and `s0` to `s11`.
pub struct TaskContext {
    pub ra: usize,
    s: [usize; 12],
}

impl TaskContext {
    /// The saved return address.
    pub closed spec fn return_address(&self) -> usize {
        self.ra
    }

    /// The saved callee-saved registers.
    pub closed spec fn saved(&self) -> Seq<usize> {
        self.s@
    }

    /// A context that returns to `trap_return` (the user trap-return entry, word 93 of the
    /// proxy context), with all callee-saved registers zero.
    pub fn goto_trap_return(trap_return: usize) -> (r: TaskContext)
        ensures
            r.return_address() == trap_return,
            r.saved() == Seq::new(12, |i: int| 0usize),
    {
        let r = TaskContext { ra: trap_return, s: [0; 12] };
        assert(r.s@ =~= Seq::new(12, |i: int| 0usize));
        r
    }

    /// Saved register `s<i>`.
    pub fn saved_reg(&self, i: usize) -> (r: usize)
        requires
            i < 12,
        ensures
            r == self.saved()[i as int],
    {
        self.s[i]
    }
}


/// A task the scheduler hands over: its process id and the id of its address space.
#[derive(Clone, Copy, PartialEq, Eq, Structural, Debug)]
pub struct TaskRef {
    pub pid: usize,
    pub space_id: usize,
}

/// What one round of the processor's scheduling loop does.
#[derive(Clone, Copy, PartialEq, Eq, Structural, Debug)]
pub enum RunStep {
    /// Mark `next` running, put `previous` (if any) back in the ready queue as ready,
    /// activate address space `activate` and switch from the idle context to `next`.
    Switch { next: TaskRef, previous: Option<TaskRef>, activate: usize },
    /// No other task is ready: switch back to `task`.
    Resume { task: TaskRef },
    /// No task at all: fetch again.
    Idle,
}

/// The step for a processor whose current task is `current` when the ready queue gives
/// `fetched`: a running task yields to the fetched one (whose process id names the space to
/// activate), or resumes when there is none; a processor without a task takes the fetched one
/// (activating its address space) or stays idle.
pub open spec fn run_step_of(current: Option<TaskRef>, fetched: Option<TaskRef>) -> RunStep {
    match current {
        Some(cur) => match fetched {
            Some(next) => RunStep::Switch { next, previous: Some(cur), activate: next.pid },
            None => RunStep::Resume { task: cur },
        },
        None => match fetched {
            Some(next) => RunStep::Switch { next, previous: None, activate: next.space_id },
            None => RunStep::Idle,
        },
    }
}

/// A processor: the task it runs and the times it last entered user and kernel mode.
pub struct Processor {
    current: Option<TaskRef>,
    user_clock: usize,
    kernel_clock: usize,
}

impl Processor {
    /// The task the processor runs.
    pub closed spec fn current_task(&self) -> Option<TaskRef> {
        self.current
    }

    /// Time of the last return to user mode.
    pub closed spec fn user_time(&self) -> usize {
        self.user_clock
    }

    /// Time of the last trap into the kernel.
    pub closed spec fn kernel_time(&self) -> usize {
        self.kernel_clock
    }

    /// A processor with no task and both clocks at 0.
    pub fn new() -> (r: Processor)
        ensures
            r.current_task() == None::<TaskRef>,
            r.user_time() == 0,
            r.kernel_time() == 0,
    {
        Processor { current: None, user_clock: 0, kernel_clock: 0 }
    }

    /// Records `now` as the time of the return to user mode.
    pub fn update_user_clock(&mut self, now: usize)
        ensures
            final(self).user_time() == now,
            final(self).kernel_time() == old(self).kernel_time(),
            final(self).current_task() == old(self).current_task(),
    {
        self.user_clock = now;
    }

    /// Records `now` as the time of the trap into the kernel.
    pub fn update_kernel_clock(&mut self, now: usize)
        ensures
            final(self).kernel_time() == now,
            final(self).user_time() == old(self).user_time(),
            final(self).current_task() == old(self).current_task(),
    {
        self.kernel_clock = now;
    }

    /// Time of the last return to user mode.
    pub fn get_user_clock(&self) -> (r: usize)
        ensures
            r == self.user_time(),
    {
        self.user_clock
    }

    /// Time of the last trap into the kernel.
    pub fn get_kernel_clock(&self) -> (r: usize)
        ensures
            r == self.kernel_time(),
    {
        self.kernel_clock
    }

    /// Takes the current task out, leaving the processor without one.
    pub fn take_current(&mut self) -> (r: Option<TaskRef>)
        ensures
            r == old(self).current_task(),
            final(self).current_task() == None::<TaskRef>,
            final(self).user_time() == old(self).user_time(),
            final(self).kernel_time() == old(self).kernel_time(),
    {
        let r = self.current;
        self.current = None;
        r
    }

    /// The current task.
    pub fn current(&self) -> (r: Option<TaskRef>)
        ensures
            r == self.current_task(),
    {
        self.current
    }

    /// One round of the scheduling loop, given what the ready queue hands out: the processor
    /// ends up running the task the step switches or returns to.
    pub fn run_step(&mut self, fetched: Option<TaskRef>) -> (r: RunStep)
        ensures
            r == run_step_of(old(self).current_task(), fetched),
            final(self).current_task() == match r {
                RunStep::Switch { next, .. } => Some(next),
                RunStep::Resume { task } => Some(task),
                RunStep::Idle => None,
            },
            final(self).user_time() == old(self).user_time(),
            final(self).kernel_time() == old(self).kernel_time(),
    {
        match self.take_current() {
            Some(cur) => match fetched {
                Some(next) => {
                    self.current = Some(next);
                    RunStep::Switch { next, previous: Some(cur), activate: next.pid }
                },
                None => {
                    self.current = Some(cur);
                    RunStep::Resume { task: cur }
                },
            },
            None => match fetched {
                Some(next) => {
                    self.current = Some(next);
                    RunStep::Switch { next, previous: None, activate: next.space_id }
                },
                None => RunStep::Idle,
            },
        }
    }
}

/// One scheduling round: with a task running and another handed out, the processor switches
/// to the new task, puts the running one back, and activates the space named by the new
/// task's process id; with a task running and none handed out it resumes that task; with no
/// task running it switches to the task handed out, activating its own address space, or
/// stays idle when there is none.
pub proof fn lemma_run_step_cases(current: Option<TaskRef>, fetched: Option<TaskRef>)
    ensures
        current is Some && fetched is Some ==> run_step_of(current, fetched) == (
        RunStep::Switch { next: fetched->0, previous: current, activate: fetched->0.pid }),
        current is Some && fetched is None ==> run_step_of(current, fetched) == (RunStep::Resume {
            task: current->0,
        }),
        current is None && fetched is Some ==> run_step_of(current, fetched) == (RunStep::Switch {
            next: fetched->0,
            previous: None,
            activate: fetched->0.space_id,
        }),
        current is None && fetched is None ==> run_step_of(current, fetched) == RunStep::Idle,
{
}

} // verus!
