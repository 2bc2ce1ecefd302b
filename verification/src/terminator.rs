//! Cooperative cancellation: a terminator stands above the tasks that were
//! spawned under it, tells them when to stop and knows when all have stopped.
//!
//! The policy is that of a consensus engine: as soon as the exit is asked for,
//! or any task under the terminator ends for whatever reason, all the others
//! are told to stop, and the terminator waits for every one of them, however
//! long it takes.

use vstd::prelude::*;
use crate::committee::count_true;

verus! {

/// Where a shutdown stands.
#[derive(Debug, Clone, Copy, PartialEq, Eq, Structural)]
pub enum Phase {
    /// No exit was asked for and every task is at work.
    Running,
    /// The tasks were told to stop and not all of them have stopped.
    Stopping,
    /// The tasks were told to stop and all of them have stopped.
    Stopped,
}

/// What the owner of the terminator has to do after an event.
#[derive(Debug, Clone, Copy, PartialEq, Eq, Structural)]
pub enum Action {
    /// Nothing but to wait for the next event.
    Wait,
    /// Tell every task that has not stopped to stop, then wait.
    Cancel,
    /// All tasks have stopped: the shutdown is complete.
    Finish,
}

/// A terminator as a mathematical value: whether the tasks were told to stop,
/// and for each task whether it has stopped.
pub struct TerminatorState {
    pub cancelled: bool,
    pub stopped: Seq<bool>,
}

/// Whether every task has stopped.
pub open spec fn all_stopped(stopped: Seq<bool>) -> bool {
    forall|i: int| 0 <= i < stopped.len() ==> stopped[i]
}

/// Where the shutdown of `s` stands.
pub open spec fn phase_of(s: TerminatorState) -> Phase {
    if !s.cancelled {
        Phase::Running
    } else if all_stopped(s.stopped) {
        Phase::Stopped
    } else {
        Phase::Stopping
    }
}

/// What is to be done on reaching `after` from a state where cancellation
/// was, or was not, yet signalled.
pub open spec fn action_for(was_cancelled: bool, after: TerminatorState) -> Action {
    if all_stopped(after.stopped) {
        Action::Finish
    } else if !was_cancelled {
        Action::Cancel
    } else {
        Action::Wait
    }
}

/// The terminator of a group of tasks.
pub struct Terminator {
    cancelled: bool,
    stopped: Vec<bool>,
    /// The number of tasks that have not stopped.
    alive: usize,
}

impl View for Terminator {
    type V = TerminatorState;

    closed spec fn view(&self) -> TerminatorState {
        TerminatorState { cancelled: self.cancelled, stopped: self.stopped@ }
    }
}

/// All entries are set exactly if as many are set as there are.
proof fn lemma_all_set(s: Seq<bool>)
    ensures
        all_stopped(s) <==> count_true(s) == s.len(),
    decreases s.len(),
{
    if s.len() > 0 {
        lemma_all_set(s.drop_last());
        crate::committee::lemma_count_true_bound(s.drop_last());
        if all_stopped(s) {
            assert forall|i: int| 0 <= i < s.drop_last().len() implies s.drop_last()[i] by {
                assert(s.drop_last()[i] == s[i]);
            }
        }
        if count_true(s) == s.len() {
            assert forall|i: int| 0 <= i < s.len() implies s[i] by {
                if i < s.len() - 1 {
                    assert(s.drop_last()[i] == s[i]);
                }
            }
        }
    }
}

impl Terminator {
    /// The invariant of the terminator.
    pub closed spec fn wf(&self) -> bool {
        self.alive + count_true(self.stopped@) == self.stopped.len()
    }

    /// A terminator with no task under it, at work.
    pub fn new() -> (terminator: Terminator)
        ensures
            terminator.wf(),
            !terminator@.cancelled,
            terminator@.stopped.len() == 0,
    {
        Terminator { cancelled: false, stopped: Vec::new(), alive: 0 }
    }

    /// Puts one more task under the terminator and answers the number by
    /// which the task is known. A task that joins after the others were told
    /// to stop is to stop at once: `is_cancelled` says so.
    pub fn add_offspring_connection(&mut self) -> (task: usize)
        requires
            old(self).wf(),
        ensures
            final(self).wf(),
            task == old(self)@.stopped.len(),
            final(self)@.cancelled == old(self)@.cancelled,
            final(self)@.stopped == old(self)@.stopped.push(false),
    {
        let task = self.stopped.len();
        proof {
            crate::committee::lemma_count_true_bound(self.stopped@);
            assert(self.stopped@.push(false).drop_last() =~= self.stopped@);
        }
        self.stopped.push(false);
        assert(self.alive < self.stopped.len());
        self.alive = self.alive + 1;
        task
    }

    /// Whether the tasks were told to stop.
    pub fn is_cancelled(&self) -> (b: bool)
        ensures
            b == self@.cancelled,
    {
        self.cancelled
    }

    /// Where the shutdown stands.
    pub fn phase(&self) -> (p: Phase)
        requires
            self.wf(),
        ensures
            p == phase_of(self@),
    {
        proof {
            lemma_all_set(self.stopped@);
        }
        if !self.cancelled {
            Phase::Running
        } else if self.alive == 0 {
            Phase::Stopped
        } else {
            Phase::Stopping
        }
    }

    /// The exit is asked for. The tasks are told to stop, unless they were
    /// told before.
    pub fn request_exit(&mut self) -> (action: Action)
        requires
            old(self).wf(),
        ensures
            final(self).wf(),
            final(self)@.cancelled,
            final(self)@.stopped == old(self)@.stopped,
            action == action_for(old(self)@.cancelled, final(self)@),
    {
        proof {
            lemma_all_set(self.stopped@);
        }
        let was_cancelled = self.cancelled;
        self.cancelled = true;
        if self.alive == 0 {
            Action::Finish
        } else if !was_cancelled {
            Action::Cancel
        } else {
            Action::Wait
        }
    }

    /// The task `task` has ended, whether it was told to or not and whether
    /// well or badly. If the others were not told to stop, they are now. What
    /// is said of a task that is unknown, or has ended before, changes
    /// nothing.
    pub fn task_ended(&mut self, task: usize) -> (action: Action)
        requires
            old(self).wf(),
        ensures
            final(self).wf(),
            task < old(self)@.stopped.len() && !old(self)@.stopped[task as int] ==> {
                &&& final(self)@.cancelled
                &&& final(self)@.stopped == old(self)@.stopped.update(task as int, true)
                &&& action == action_for(old(self)@.cancelled, final(self)@)
            },
            !(task < old(self)@.stopped.len() && !old(self)@.stopped[task as int]) ==> {
                &&& final(self)@ == old(self)@
                &&& action == Action::Wait
            },
    {
        if task >= self.stopped.len() || self.stopped[task] {
            return Action::Wait;
        }
        proof {
            crate::committee::lemma_count_after_set(self.stopped@, task as int);
            crate::committee::lemma_count_true_bound(self.stopped@.update(task as int, true));
            lemma_all_set(self.stopped@.update(task as int, true));
        }
        let was_cancelled = self.cancelled;
        self.stopped[task] = true;
        self.alive = self.alive - 1;
        self.cancelled = true;
        if self.alive == 0 {
            Action::Finish
        } else if !was_cancelled {
            Action::Cancel
        } else {
            Action::Wait
        }
    }
}

/// Cancellation is for good: whatever happens to a terminator whose tasks
/// were told to stop, they stay told, no task that has stopped is at work
/// again, and the shutdown never returns to `Running`.
pub proof fn lemma_cancellation_is_final(before: TerminatorState, after: TerminatorState, task: int)
    requires
        before.cancelled,
        after.cancelled,
        after.stopped == before.stopped || (0 <= task < before.stopped.len() && after.stopped
            == before.stopped.update(task, true)),
    ensures
        phase_of(after) != Phase::Running,
        phase_of(before) == Phase::Stopped ==> phase_of(after) == Phase::Stopped,
        forall|i: int| 0 <= i < before.stopped.len() && before.stopped[i] ==> after.stopped[i],
{
}

} // verus!
